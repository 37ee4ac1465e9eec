//! A check of the bytes of a bvh file before they are handed to the parser
//! of `bvh_anim`. It reads the file line by line as that parser does and
//! refuses exactly the files on which the parser would take a step that
//! panics:
//! - in the hierarchy: a second `HIERARCHY` line, a `ROOT` or `JOINT` line
//!   out of place or without a name, `End` not followed by `Site`, a `}`
//!   without an open brace, a child joint's depth dropping below zero;
//! - a `CHANNELS` count so large that reserving room for that many channels
//!   panics or asks for an eighth of the address space or more;
//! - a number of motion values (channels times frames) that overflows, or
//!   that is larger than the file, which could not hold that many values and
//!   for which the parser would reserve memory out of proportion to the file.
//!
//! Everything else is left to the parser, including the files on which it
//! returns an error. As in the parser, a line is what lies between two
//! `\n`, trimmed of Unicode white space at both ends; its tokens are the
//! maximal runs of bytes that are neither ASCII white space nor `:`; a count
//! is an optional `+` and decimal digits.
use vstd::prelude::*;

verus! {

/// How far the check has followed the parser.
#[derive(Clone, Copy, Debug, PartialEq, Eq, Structural)]
pub enum Phase {
    /// No `HIERARCHY` line yet.
    BeforeHierarchy,
    /// Inside the hierarchy.
    InHierarchy,
    /// The root joint was closed: the `MOTION` line comes next.
    AwaitMotion,
    /// The `Frames` line comes next.
    AwaitFrames,
    /// Nothing the parser reads from here on can panic: it has returned an
    /// error, or it only parses values it has room for.
    Settled,
}

/// The keyword that starts a line.
#[derive(Clone, Copy, Debug, PartialEq, Eq, Structural)]
pub enum LineWord {
    Hierarchy,
    Root,
    Joint,
    End,
    OpenBrace,
    CloseBrace,
    Offset,
    Channels,
    Frames,
    Other,
}

/// What the check keeps of the tokens of a line.
#[derive(Clone, Copy, Debug)]
pub struct LineInfo {
    /// Tokens completed so far.
    pub tokens: usize,
    /// A token is being read.
    pub in_token: bool,
    /// Index of the first byte of the token being read.
    pub token_start: usize,
    /// Keyword of the first token.
    pub first: LineWord,
    /// The second token is `Site`.
    pub second_is_site: bool,
    /// The second token so far is an optional `+` and digits.
    pub second_number: bool,
    /// The second token has a digit.
    pub second_has_digit: bool,
    /// Value of those digits, kept at or above `2^64` once it reaches it.
    pub second_value: u128,
}

/// State of the check between lines: the parser's hierarchy state and
/// where the current line starts.
#[derive(Clone, Copy, Debug)]
pub struct ScanState {
    /// A step on which the parser panics was found.
    pub rejected: bool,
    pub phase: Phase,
    /// Number of open braces.
    pub depth: usize,
    /// An `End Site` line was met and its brace is not closed yet.
    pub in_end_site: bool,
    /// The joint of the last closed end site is already stored.
    pub pushed_end_site: bool,
    /// The joint being read is a child joint (not the root).
    pub child_joint: bool,
    /// Number of channel names on the `CHANNELS` lines so far.
    pub channels: usize,
    /// Index of the first byte of the current line.
    pub line_start: usize,
}

/// A byte that separates tokens: ASCII white space or `:`.
pub open spec fn is_separator(b: u8) -> bool {
    b == 32 || b == 9 || b == 10 || b == 12 || b == 13 || b == 58
}

/// A decimal digit.
pub open spec fn is_digit(b: u8) -> bool {
    48 <= b <= 57
}

/// White space of one byte: tab, line feed, vertical tab, form feed,
/// carriage return, space.
pub open spec fn is_ascii_space(b: u8) -> bool {
    9 <= b <= 13 || b == 32
}

/// The two-byte encodings of white space: U+0085 and U+00A0.
pub open spec fn is_space2(a: u8, b: u8) -> bool {
    a == 0xC2 && (b == 0x85 || b == 0xA0)
}

/// The three-byte encodings of white space: U+1680, U+2000 to U+200A,
/// U+2028, U+2029, U+202F, U+205F and U+3000.
pub open spec fn is_space3(a: u8, b: u8, c: u8) -> bool {
    ||| a == 0xE1 && b == 0x9A && c == 0x80
    ||| a == 0xE2 && b == 0x80 && (0x80 <= c <= 0x8A || c == 0xA8 || c == 0xA9 || c == 0xAF)
    ||| a == 0xE2 && b == 0x81 && c == 0x9F
    ||| a == 0xE3 && b == 0x80 && c == 0x80
}

/// Length of the white space character that starts at `k`, within
/// `[k, end)`; `0` when there is none.
pub open spec fn space_len_at(bytes: Seq<u8>, k: int, end: int) -> int {
    if k >= end {
        0
    } else if is_ascii_space(bytes[k]) {
        1
    } else if k + 2 <= end && is_space2(bytes[k], bytes[k + 1]) {
        2
    } else if k + 3 <= end && is_space3(bytes[k], bytes[k + 1], bytes[k + 2]) {
        3
    } else {
        0
    }
}

/// Length of the white space character that ends at `k`, within
/// `[start, k)`; `0` when there is none.
pub open spec fn space_len_before(bytes: Seq<u8>, start: int, k: int) -> int {
    if k <= start {
        0
    } else if is_ascii_space(bytes[k - 1]) {
        1
    } else if k - 2 >= start && is_space2(bytes[k - 2], bytes[k - 1]) {
        2
    } else if k - 3 >= start && is_space3(bytes[k - 3], bytes[k - 2], bytes[k - 1]) {
        3
    } else {
        0
    }
}

/// Start of `[k, end)` once its leading white space is removed.
pub open spec fn trim_start(bytes: Seq<u8>, k: int, end: int) -> int
    decreases end - k,
{
    if k < end && space_len_at(bytes, k, end) > 0 {
        trim_start(bytes, k + space_len_at(bytes, k, end), end)
    } else {
        k
    }
}

/// End of `[start, k)` once its trailing white space is removed.
pub open spec fn trim_end(bytes: Seq<u8>, start: int, k: int) -> int
    decreases k - start,
{
    if k > start && space_len_before(bytes, start, k) > 0 {
        trim_end(bytes, start, k - space_len_before(bytes, start, k))
    } else {
        k
    }
}

/// `HIERARCHY`
pub open spec fn hierarchy_keyword() -> Seq<u8> {
    seq![72u8, 73, 69, 82, 65, 82, 67, 72, 89]
}

/// `ROOT`
pub open spec fn root_keyword() -> Seq<u8> {
    seq![82u8, 79, 79, 84]
}

/// `JOINT`
pub open spec fn joint_keyword() -> Seq<u8> {
    seq![74u8, 79, 73, 78, 84]
}

/// `End`
pub open spec fn end_keyword() -> Seq<u8> {
    seq![69u8, 110, 100]
}

/// `Site`
pub open spec fn site_keyword() -> Seq<u8> {
    seq![83u8, 105, 116, 101]
}

/// `{`
pub open spec fn open_brace() -> Seq<u8> {
    seq![123u8]
}

/// `}`
pub open spec fn close_brace() -> Seq<u8> {
    seq![125u8]
}

/// `OFFSET`
pub open spec fn offset_keyword() -> Seq<u8> {
    seq![79u8, 70, 70, 83, 69, 84]
}

/// `CHANNELS`
pub open spec fn channels_keyword() -> Seq<u8> {
    seq![67u8, 72, 65, 78, 78, 69, 76, 83]
}

/// `MOTION`
pub open spec fn motion_keyword() -> Seq<u8> {
    seq![77u8, 79, 84, 73, 79, 78]
}

/// `Frames`
pub open spec fn frames_keyword() -> Seq<u8> {
    seq![70u8, 114, 97, 109, 101, 115]
}

/// The keyword a token stands for.
pub open spec fn word_of(t: Seq<u8>) -> LineWord {
    if t == hierarchy_keyword() {
        LineWord::Hierarchy
    } else if t == root_keyword() {
        LineWord::Root
    } else if t == joint_keyword() {
        LineWord::Joint
    } else if t == end_keyword() {
        LineWord::End
    } else if t == open_brace() {
        LineWord::OpenBrace
    } else if t == close_brace() {
        LineWord::CloseBrace
    } else if t == offset_keyword() {
        LineWord::Offset
    } else if t == channels_keyword() {
        LineWord::Channels
    } else if t == frames_keyword() {
        LineWord::Frames
    } else {
        LineWord::Other
    }
}

/// A value past which digits are no longer accumulated.
pub open spec fn value_cap() -> u128 {
    0x1_0000_0000_0000_0000u128
}

/// The value of digits followed by the digit `b`, kept once at the cap.
pub open spec fn next_value(v: u128, b: u8) -> u128 {
    if v >= value_cap() {
        v
    } else {
        (v * 10 + (b - 48)) as u128
    }
}

/// Largest `CHANNELS` count the check lets through: reserving room for
/// more channels panics or asks for an eighth of the address space or more.
pub open spec fn max_channel_count() -> int {
    isize::MAX / 32
}

/// Nothing read of a line yet.
pub open spec fn empty_line() -> LineInfo {
    LineInfo {
        tokens: 0,
        in_token: false,
        token_start: 0,
        first: LineWord::Other,
        second_is_site: false,
        second_number: false,
        second_has_digit: false,
        second_value: 0,
    }
}

/// End the token being read, which ends before index `i`.
pub open spec fn close_token(bytes: Seq<u8>, i: int, t: LineInfo) -> LineInfo {
    if !t.in_token {
        t
    } else {
        let token = bytes.subrange(t.token_start as int, i);
        LineInfo {
            in_token: false,
            tokens: (t.tokens + 1) as usize,
            first: if t.tokens == 0 {
                word_of(token)
            } else {
                t.first
            },
            second_is_site: if t.tokens == 1 {
                token == site_keyword()
            } else {
                t.second_is_site
            },
            ..t
        }
    }
}

/// Read the token byte `b` at index `i`.
pub open spec fn token_byte(i: int, b: u8, t: LineInfo) -> LineInfo {
    if !t.in_token {
        LineInfo {
            in_token: true,
            token_start: i as usize,
            second_number: if t.tokens == 1 {
                b == 43 || is_digit(b)
            } else {
                t.second_number
            },
            second_has_digit: if t.tokens == 1 {
                is_digit(b)
            } else {
                t.second_has_digit
            },
            second_value: if t.tokens == 1 && is_digit(b) {
                (b - 48) as u128
            } else {
                t.second_value
            },
            ..t
        }
    } else if t.tokens == 1 {
        LineInfo {
            second_number: t.second_number && is_digit(b),
            second_has_digit: t.second_has_digit || is_digit(b),
            second_value: if is_digit(b) {
                next_value(t.second_value, b)
            } else {
                t.second_value
            },
            ..t
        }
    } else {
        t
    }
}

/// What is known of the tokens of `[start, k)`.
pub open spec fn tokens_upto(bytes: Seq<u8>, start: int, k: int) -> LineInfo
    decreases k - start,
{
    if k <= start {
        empty_line()
    } else {
        let t = tokens_upto(bytes, start, k - 1);
        if is_separator(bytes[k - 1]) {
            close_token(bytes, k - 1, t)
        } else {
            token_byte(k - 1, bytes[k - 1], t)
        }
    }
}

/// What is known of the tokens of the line `[start, end)`, trimmed.
pub open spec fn line_info(bytes: Seq<u8>, start: int, end: int) -> LineInfo {
    let ts = trim_start(bytes, start, end);
    let te = trim_end(bytes, ts, end);
    close_token(bytes, te, tokens_upto(bytes, ts, te))
}

/// The second token is a count: an optional `+` and at least one digit.
pub open spec fn second_is_count(t: LineInfo) -> bool {
    t.tokens >= 2 && t.second_number && t.second_has_digit
}

/// The state with a panicking step recorded.
pub open spec fn reject(s: ScanState) -> ScanState {
    ScanState { rejected: true, ..s }
}

/// The parser's step on a hierarchy line with tokens `t`, `len` being the
/// size of the file.
pub open spec fn hierarchy_line(s: ScanState, t: LineInfo, len: int) -> ScanState {
    match t.first {
        LineWord::Hierarchy => if s.phase != Phase::BeforeHierarchy {
            reject(s)
        } else {
            ScanState { phase: Phase::InHierarchy, ..s }
        },
        LineWord::Root => if s.phase != Phase::InHierarchy || t.tokens < 2 {
            reject(s)
        } else {
            s
        },
        LineWord::OpenBrace => if s.depth >= len {
            reject(s)
        } else {
            ScanState { depth: (s.depth + 1) as usize, ..s }
        },
        LineWord::CloseBrace => if s.depth == 0 {
            reject(s)
        } else {
            let depth = (s.depth - 1) as usize;
            let phase = if depth != 0 {
                s.phase
            } else if s.channels == 0 {
                Phase::Settled
            } else {
                Phase::AwaitMotion
            };
            if !s.in_end_site {
                ScanState { depth, phase, ..s }
            } else if s.child_joint && depth == 0 {
                reject(s)
            } else {
                ScanState {
                    depth,
                    phase,
                    child_joint: true,
                    in_end_site: false,
                    pushed_end_site: true,
                    ..s
                }
            }
        },
        LineWord::End => if t.tokens < 2 || !t.second_is_site {
            reject(s)
        } else {
            ScanState { in_end_site: true, ..s }
        },
        LineWord::Joint => if s.phase != Phase::InHierarchy || t.tokens < 2 {
            reject(s)
        } else if s.pushed_end_site {
            ScanState { pushed_end_site: false, ..s }
        } else if s.child_joint && s.depth == 0 {
            reject(s)
        } else {
            ScanState { child_joint: true, ..s }
        },
        LineWord::Offset => if s.phase != Phase::InHierarchy {
            ScanState { phase: Phase::Settled, ..s }
        } else {
            s
        },
        LineWord::Channels => if s.phase != Phase::InHierarchy || !second_is_count(t) {
            ScanState { phase: Phase::Settled, ..s }
        } else if t.second_value > max_channel_count() || s.channels + (t.tokens - 2) > len {
            reject(s)
        } else {
            ScanState { channels: (s.channels + (t.tokens - 2)) as usize, ..s }
        },
        _ => s,
    }
}

/// The parser's step on the line `[start, end)`.
pub open spec fn line_step(bytes: Seq<u8>, start: int, end: int, s: ScanState) -> ScanState {
    let len = bytes.len() as int;
    let ts = trim_start(bytes, start, end);
    let te = trim_end(bytes, ts, end);
    let t = line_info(bytes, start, end);
    if s.rejected || s.phase == Phase::Settled || ts == te {
        s
    } else {
        match s.phase {
            Phase::AwaitMotion => if bytes.subrange(ts, te) == motion_keyword() {
                ScanState { phase: Phase::AwaitFrames, ..s }
            } else {
                ScanState { phase: Phase::Settled, ..s }
            },
            Phase::AwaitFrames => if t.first != LineWord::Frames || !second_is_count(t) {
                ScanState { phase: Phase::Settled, ..s }
            } else if t.second_value <= len && s.channels * t.second_value <= len && 4 * (
            s.channels * t.second_value) <= isize::MAX {
                ScanState { phase: Phase::Settled, ..s }
            } else {
                reject(s)
            },
            _ => if t.tokens == 0 {
                s
            } else {
                hierarchy_line(s, t, len)
            },
        }
    }
}

/// The step on the byte at index `i`: a line ends at each `\n`.
pub open spec fn scan_step(bytes: Seq<u8>, i: int, s: ScanState) -> ScanState {
    if bytes[i] == 10 {
        ScanState { line_start: (i + 1) as usize, ..line_step(bytes, s.line_start as int, i, s) }
    } else {
        s
    }
}

/// The state at the start of the file.
pub open spec fn initial_state() -> ScanState {
    ScanState {
        rejected: false,
        phase: Phase::BeforeHierarchy,
        depth: 0,
        in_end_site: false,
        pushed_end_site: false,
        child_joint: false,
        channels: 0,
        line_start: 0,
    }
}

/// The state after the first `n` bytes.
pub open spec fn scan(bytes: Seq<u8>, n: int) -> ScanState
    decreases n,
{
    if n <= 0 {
        initial_state()
    } else {
        scan_step(bytes, n - 1, scan(bytes, n - 1))
    }
}

/// The state after the whole file, its last line ended too.
pub open spec fn scan_all(bytes: Seq<u8>) -> ScanState {
    let s = scan(bytes, bytes.len() as int);
    line_step(bytes, s.line_start as int, bytes.len() as int, s)
}

/// The bytes pass the check: the parser takes no panicking step on them.
pub open spec fn bvh_header_checked(bytes: Seq<u8>) -> bool {
    !scan_all(bytes).rejected
}

fn exec_space_len_at(bytes: &[u8], k: usize, end: usize) -> (n: usize)
    requires
        k <= end <= bytes@.len(),
    ensures
        n == space_len_at(bytes@, k as int, end as int),
        n <= end - k,
{
    if k >= end {
        0
    } else {
        let a = bytes[k];
        if (9 <= a && a <= 13) || a == 32 {
            1
        } else if end - k >= 2 && a == 0xC2 && (bytes[k + 1] == 0x85 || bytes[k + 1] == 0xA0) {
            2
        } else if end - k >= 3 && is_space3_exec(a, bytes[k + 1], bytes[k + 2]) {
            3
        } else {
            0
        }
    }
}

fn exec_space_len_before(bytes: &[u8], start: usize, k: usize) -> (n: usize)
    requires
        start <= k <= bytes@.len(),
    ensures
        n == space_len_before(bytes@, start as int, k as int),
        n <= k - start,
{
    if k <= start {
        0
    } else {
        let a = bytes[k - 1];
        if (9 <= a && a <= 13) || a == 32 {
            1
        } else if k - start >= 2 && bytes[k - 2] == 0xC2 && (a == 0x85 || a == 0xA0) {
            2
        } else if k - start >= 3 && is_space3_exec(bytes[k - 3], bytes[k - 2], a) {
            3
        } else {
            0
        }
    }
}

fn is_space3_exec(a: u8, b: u8, c: u8) -> (space: bool)
    ensures
        space == is_space3(a, b, c),
{
    (a == 0xE1 && b == 0x9A && c == 0x80) || (a == 0xE2 && b == 0x80 && ((0x80 <= c && c <= 0x8A)
        || c == 0xA8 || c == 0xA9 || c == 0xAF)) || (a == 0xE2 && b == 0x81 && c == 0x9F) || (a
        == 0xE3 && b == 0x80 && c == 0x80)
}

fn exec_trim_start(bytes: &[u8], start: usize, end: usize) -> (ts: usize)
    requires
        start <= end <= bytes@.len(),
    ensures
        ts == trim_start(bytes@, start as int, end as int),
        start <= ts <= end,
{
    let mut k = start;
    while k < end
        invariant
            start <= k <= end <= bytes@.len(),
            trim_start(bytes@, k as int, end as int) == trim_start(bytes@, start as int, end as int),
        decreases end - k,
    {
        let n = exec_space_len_at(bytes, k, end);
        if n == 0 {
            return k;
        }
        k = k + n;
    }
    k
}

fn exec_trim_end(bytes: &[u8], start: usize, end: usize) -> (te: usize)
    requires
        start <= end <= bytes@.len(),
    ensures
        te == trim_end(bytes@, start as int, end as int),
        start <= te <= end,
{
    let mut k = end;
    while k > start
        invariant
            start <= k <= end <= bytes@.len(),
            trim_end(bytes@, start as int, k as int) == trim_end(bytes@, start as int, end as int),
        decreases k - start,
    {
        let n = exec_space_len_before(bytes, start, k);
        if n == 0 {
            return k;
        }
        k = k - n;
    }
    k
}

fn slice_equals(bytes: &[u8], start: usize, end: usize, keyword: &[u8]) -> (equal: bool)
    requires
        start <= end <= bytes@.len(),
    ensures
        equal == (bytes@.subrange(start as int, end as int) == keyword@),
{
    if end - start != keyword.len() {
        assert(bytes@.subrange(start as int, end as int).len() != keyword@.len());
        return false;
    }
    let mut k: usize = 0;
    while k < keyword.len()
        invariant
            start <= end <= bytes@.len(),
            end - start == keyword@.len(),
            k <= keyword@.len(),
            forall|j: int| 0 <= j < k ==> bytes@[start + j] == keyword@[j],
        decreases keyword@.len() - k,
    {
        if bytes[start + k] != keyword[k] {
            assert(bytes@.subrange(start as int, end as int)[k as int] != keyword@[k as int]);
            return false;
        }
        k = k + 1;
    }
    assert(bytes@.subrange(start as int, end as int) =~= keyword@);
    true
}

fn word_at(bytes: &[u8], start: usize, end: usize) -> (word: LineWord)
    requires
        start <= end <= bytes@.len(),
    ensures
        word == word_of(bytes@.subrange(start as int, end as int)),
{
    let hierarchy: [u8; 9] = [72, 73, 69, 82, 65, 82, 67, 72, 89];
    let root: [u8; 4] = [82, 79, 79, 84];
    let joint: [u8; 5] = [74, 79, 73, 78, 84];
    let end_word: [u8; 3] = [69, 110, 100];
    let open: [u8; 1] = [123];
    let close: [u8; 1] = [125];
    let offset: [u8; 6] = [79, 70, 70, 83, 69, 84];
    let channels: [u8; 8] = [67, 72, 65, 78, 78, 69, 76, 83];
    let frames: [u8; 6] = [70, 114, 97, 109, 101, 115];
    proof {
        assert(hierarchy@ =~= hierarchy_keyword());
        assert(root@ =~= root_keyword());
        assert(joint@ =~= joint_keyword());
        assert(end_word@ =~= end_keyword());
        assert(open@ =~= open_brace());
        assert(close@ =~= close_brace());
        assert(offset@ =~= offset_keyword());
        assert(channels@ =~= channels_keyword());
        assert(frames@ =~= frames_keyword());
    }
    if slice_equals(bytes, start, end, hierarchy.as_slice()) {
        LineWord::Hierarchy
    } else if slice_equals(bytes, start, end, root.as_slice()) {
        LineWord::Root
    } else if slice_equals(bytes, start, end, joint.as_slice()) {
        LineWord::Joint
    } else if slice_equals(bytes, start, end, end_word.as_slice()) {
        LineWord::End
    } else if slice_equals(bytes, start, end, open.as_slice()) {
        LineWord::OpenBrace
    } else if slice_equals(bytes, start, end, close.as_slice()) {
        LineWord::CloseBrace
    } else if slice_equals(bytes, start, end, offset.as_slice()) {
        LineWord::Offset
    } else if slice_equals(bytes, start, end, channels.as_slice()) {
        LineWord::Channels
    } else if slice_equals(bytes, start, end, frames.as_slice()) {
        LineWord::Frames
    } else {
        LineWord::Other
    }
}

/// Bounds that the tokens of `[start, k)` keep; they keep the counters
/// from overflowing.
pub open spec fn token_bounds(t: LineInfo, start: int, k: int) -> bool {
    &&& t.tokens + (if t.in_token { 1int } else { 0int }) <= k - start
    &&& t.in_token ==> start <= t.token_start < k
    &&& t.second_value <= 10 * value_cap() + 9
}

fn exec_close_token(bytes: &[u8], start: usize, i: usize, t: LineInfo) -> (r: LineInfo)
    requires
        start <= i <= bytes@.len(),
        token_bounds(t, start as int, i as int),
    ensures
        r == close_token(bytes@, i as int, t),
        r.tokens <= i - start,
        !r.in_token,
        r.second_value == t.second_value,
{
    if !t.in_token {
        t
    } else {
        let site: [u8; 4] = [83, 105, 116, 101];
        proof {
            assert(site@ =~= site_keyword());
        }
        let first = if t.tokens == 0 {
            word_at(bytes, t.token_start, i)
        } else {
            t.first
        };
        let second_is_site = if t.tokens == 1 {
            slice_equals(bytes, t.token_start, i, site.as_slice())
        } else {
            t.second_is_site
        };
        LineInfo { in_token: false, tokens: t.tokens + 1, first, second_is_site, ..t }
    }
}

fn exec_token_byte(i: usize, b: u8, t: LineInfo) -> (r: LineInfo)
    requires
        t.second_value <= 10 * value_cap() + 9,
    ensures
        r == token_byte(i as int, b, t),
{
    let digit = 48 <= b && b <= 57;
    if !t.in_token {
        LineInfo {
            in_token: true,
            token_start: i,
            second_number: if t.tokens == 1 {
                b == 43 || digit
            } else {
                t.second_number
            },
            second_has_digit: if t.tokens == 1 {
                digit
            } else {
                t.second_has_digit
            },
            second_value: if t.tokens == 1 && digit {
                (b - 48) as u128
            } else {
                t.second_value
            },
            ..t
        }
    } else if t.tokens == 1 {
        let value = if digit {
            if t.second_value >= 0x1_0000_0000_0000_0000u128 {
                t.second_value
            } else {
                t.second_value * 10 + (b - 48) as u128
            }
        } else {
            t.second_value
        };
        LineInfo {
            second_number: t.second_number && digit,
            second_has_digit: t.second_has_digit || digit,
            second_value: value,
            ..t
        }
    } else {
        t
    }
}

fn exec_line_info(bytes: &[u8], start: usize, end: usize) -> (r: (usize, usize, LineInfo))
    requires
        start <= end <= bytes@.len(),
    ensures
        r.0 == trim_start(bytes@, start as int, end as int),
        r.1 == trim_end(bytes@, r.0 as int, end as int),
        r.2 == line_info(bytes@, start as int, end as int),
        r.2.second_value <= 10 * value_cap() + 9,
        start <= r.0 <= r.1 <= end,
{
    let ts = exec_trim_start(bytes, start, end);
    let te = exec_trim_end(bytes, ts, end);
    let mut t = LineInfo {
        tokens: 0,
        in_token: false,
        token_start: 0,
        first: LineWord::Other,
        second_is_site: false,
        second_number: false,
        second_has_digit: false,
        second_value: 0,
    };
    let mut k = ts;
    while k < te
        invariant
            ts <= k <= te <= bytes@.len(),
            t == tokens_upto(bytes@, ts as int, k as int),
            token_bounds(t, ts as int, k as int),
        decreases te - k,
    {
        let b = bytes[k];
        if b == 32 || b == 9 || b == 10 || b == 12 || b == 13 || b == 58 {
            t = exec_close_token(bytes, ts, k, t);
        } else {
            t = exec_token_byte(k, b, t);
        }
        k = k + 1;
    }
    let t = exec_close_token(bytes, ts, te, t);
    (ts, te, t)
}

fn exec_hierarchy_line(s: ScanState, t: LineInfo, len: usize) -> (r: ScanState)
    requires
        s.channels <= len,
    ensures
        r == hierarchy_line(s, t, len as int),
        r.channels <= len,
{
    match t.first {
        LineWord::Hierarchy => if s.phase != Phase::BeforeHierarchy {
            ScanState { rejected: true, ..s }
        } else {
            ScanState { phase: Phase::InHierarchy, ..s }
        },
        LineWord::Root => if s.phase != Phase::InHierarchy || t.tokens < 2 {
            ScanState { rejected: true, ..s }
        } else {
            s
        },
        LineWord::OpenBrace => if s.depth >= len {
            ScanState { rejected: true, ..s }
        } else {
            ScanState { depth: s.depth + 1, ..s }
        },
        LineWord::CloseBrace => if s.depth == 0 {
            ScanState { rejected: true, ..s }
        } else {
            let depth = s.depth - 1;
            let phase = if depth != 0 {
                s.phase
            } else if s.channels == 0 {
                Phase::Settled
            } else {
                Phase::AwaitMotion
            };
            if !s.in_end_site {
                ScanState { depth, phase, ..s }
            } else if s.child_joint && depth == 0 {
                ScanState { rejected: true, ..s }
            } else {
                ScanState {
                    depth,
                    phase,
                    child_joint: true,
                    in_end_site: false,
                    pushed_end_site: true,
                    ..s
                }
            }
        },
        LineWord::End => if t.tokens < 2 || !t.second_is_site {
            ScanState { rejected: true, ..s }
        } else {
            ScanState { in_end_site: true, ..s }
        },
        LineWord::Joint => if s.phase != Phase::InHierarchy || t.tokens < 2 {
            ScanState { rejected: true, ..s }
        } else if s.pushed_end_site {
            ScanState { pushed_end_site: false, ..s }
        } else if s.child_joint && s.depth == 0 {
            ScanState { rejected: true, ..s }
        } else {
            ScanState { child_joint: true, ..s }
        },
        LineWord::Offset => if s.phase != Phase::InHierarchy {
            ScanState { phase: Phase::Settled, ..s }
        } else {
            s
        },
        LineWord::Channels => if s.phase != Phase::InHierarchy || !(t.tokens >= 2 && t.second_number
            && t.second_has_digit) {
            ScanState { phase: Phase::Settled, ..s }
        } else if t.second_value > (isize::MAX / 32) as u128 || t.tokens - 2 > len - s.channels {
            ScanState { rejected: true, ..s }
        } else {
            ScanState { channels: s.channels + (t.tokens - 2), ..s }
        },
        _ => s,
    }
}

fn exec_line_step(bytes: &[u8], start: usize, end: usize, s: ScanState) -> (r: ScanState)
    requires
        start <= end <= bytes@.len(),
        s.channels <= bytes@.len(),
    ensures
        r == line_step(bytes@, start as int, end as int, s),
        r.channels <= bytes@.len(),
{
    let len = bytes.len();
    if s.rejected || s.phase == Phase::Settled {
        return s;
    }
    let (ts, te, t) = exec_line_info(bytes, start, end);
    if ts == te {
        return s;
    }
    match s.phase {
        Phase::AwaitMotion => {
            let motion: [u8; 6] = [77, 79, 84, 73, 79, 78];
            proof {
                assert(motion@ =~= motion_keyword());
            }
            if slice_equals(bytes, ts, te, motion.as_slice()) {
                ScanState { phase: Phase::AwaitFrames, ..s }
            } else {
                ScanState { phase: Phase::Settled, ..s }
            }
        },
        Phase::AwaitFrames => {
            if t.first != LineWord::Frames || !(t.tokens >= 2 && t.second_number
                && t.second_has_digit) {
                ScanState { phase: Phase::Settled, ..s }
            } else {
                let mut fits = false;
                if t.second_value <= len as u128 {
                    let channels = s.channels as u128;
                    let value = t.second_value;
                    assert(channels * value <= 0xFFFF_FFFF_FFFF_FFFFu128 * 0xFFFF_FFFF_FFFF_FFFFu128)
                        by (nonlinear_arith)
                        requires
                            channels <= 0xFFFF_FFFF_FFFF_FFFFu128,
                            value <= 0xFFFF_FFFF_FFFF_FFFFu128,
                    ;
                    let values = channels * value;
                    fits = values <= len as u128 && 4 * values <= isize::MAX as u128;
                }
                if fits {
                    ScanState { phase: Phase::Settled, ..s }
                } else {
                    ScanState { rejected: true, ..s }
                }
            }
        },
        _ => if t.tokens == 0 {
            s
        } else {
            exec_hierarchy_line(s, t, len)
        },
    }
}

/// Whether the bytes pass the check (see the module documentation).
pub fn check_bvh_header(bytes: &[u8]) -> (checked: bool)
    ensures
        checked == bvh_header_checked(bytes@),
{
    let len = bytes.len();
    let mut s = ScanState {
        rejected: false,
        phase: Phase::BeforeHierarchy,
        depth: 0,
        in_end_site: false,
        pushed_end_site: false,
        child_joint: false,
        channels: 0,
        line_start: 0,
    };
    let mut i: usize = 0;
    while i < len
        invariant
            len == bytes@.len(),
            i <= len,
            s == scan(bytes@, i as int),
            s.line_start <= i,
            s.channels <= len,
        decreases len - i,
    {
        if bytes[i] == 10 {
            let stepped = exec_line_step(bytes, s.line_start, i, s);
            s = ScanState { line_start: i + 1, ..stepped };
        }
        i = i + 1;
    }
    let last = exec_line_step(bytes, s.line_start, len, s);
    !last.rejected
}

} // verus!
