//! Which bvh hierarchies pass the check made before parsing: every properly
//! nested skeleton of named joints with end sites as leaves, any number of
//! sibling joints included, passes it. This is stated on the bytes of the
//! skeleton, one line per `HIERARCHY`, `ROOT`, `JOINT`, `End Site` and
//! brace, independently of how the check reads them.
use vstd::prelude::*;

use crate::bvh_check::{
    bvh_header_checked, close_brace, initial_state, is_separator, next_value, token_byte, close_token, end_keyword, hierarchy_keyword, hierarchy_line,
    joint_keyword, line_info, line_step, open_brace, root_keyword, channels_keyword,
    frames_keyword, motion_keyword, offset_keyword, max_channel_count, value_cap, second_is_count, scan, scan_all, site_keyword,
    tokens_upto, trim_end, trim_start, word_of, LineWord, Phase, ScanState,
};

verus! {

/// One entry of the body of a skeleton, in the order of its lines.
pub enum SkeletonItem {
    /// `JOINT name` and its opening brace.
    Joint(Seq<u8>),
    /// The closing brace of a joint.
    Close,
    /// `End Site` with its braces, and an `OFFSET` line with its values
    /// between them when there is one: a leaf.
    EndSite(Option<Seq<Seq<u8>>>),
    /// `CHANNELS`, a count written in decimal digits, and channel names.
    Channels(Seq<u8>, Seq<Seq<u8>>),
    /// `OFFSET` and its values.
    Offset(Seq<Seq<u8>>),
}

/// Decimal digits, at least one.
pub open spec fn is_digits(d: Seq<u8>) -> bool {
    d.len() > 0 && forall|i: int| 0 <= i < d.len() ==> 48 <= #[trigger] d[i] <= 57
}

/// The number that decimal digits write.
pub open spec fn digits_value(d: Seq<u8>) -> nat
    decreases d.len(),
{
    if d.len() == 0 {
        0
    } else {
        digits_value(d.drop_last()) * 10 + (d.last() - 48) as nat
    }
}

/// Each name preceded by a space.
pub open spec fn names_part(names: Seq<Seq<u8>>) -> Seq<u8>
    decreases names.len(),
{
    if names.len() == 0 {
        Seq::empty()
    } else {
        names_part(names.drop_last()) + seq![32u8] + names.last()
    }
}

/// Bytes that separate words on a line: spaces and colons, at least one.
pub open spec fn is_gap(sep: Seq<u8>) -> bool {
    sep.len() > 0 && forall|i: int| 0 <= i < sep.len() ==> (#[trigger] sep[i] == 32 || sep[i] == 58)
}

/// A line holding `w`, the separating bytes `sep`, the digits `d` and the
/// names `names`.
pub open spec fn count_line(w: Seq<u8>, sep: Seq<u8>, d: Seq<u8>, names: Seq<Seq<u8>>) -> Seq<u8> {
    w + sep + d + names_part(names) + seq![10u8]
}

/// An `OFFSET` line with its values.
pub open spec fn offset_line(values: Seq<Seq<u8>>) -> Seq<u8> {
    offset_keyword() + names_part(values) + seq![10u8]
}

/// Number of channels the first `k` entries name.
pub open spec fn total_channels(items: Seq<SkeletonItem>, k: int) -> int
    decreases k,
{
    if k <= 0 {
        0
    } else {
        total_channels(items, k - 1) + named_channels(items[k - 1])
    }
}

/// Number of channels an entry names.
pub open spec fn named_channels(item: SkeletonItem) -> int {
    match item {
        SkeletonItem::Channels(_, names) => names.len() as int,
        _ => 0int,
    }
}

/// How an entry changes the number of open joints.
pub open spec fn joint_change(item: SkeletonItem) -> int {
    match item {
        SkeletonItem::Joint(_) => 1int,
        SkeletonItem::Close => -1int,
        _ => 0int,
    }
}

/// A byte that a joint name may hold: printable ASCII other than space and
/// `:`.
pub open spec fn is_name_byte(b: u8) -> bool {
    33 <= b <= 126 && b != 58
}

/// A joint name: not empty, made of name bytes.
pub open spec fn is_name(w: Seq<u8>) -> bool {
    w.len() > 0 && forall|i: int| 0 <= i < w.len() ==> is_name_byte(#[trigger] w[i])
}

/// A line holding the word `w`.
pub open spec fn line1(w: Seq<u8>) -> Seq<u8> {
    w + seq![10u8]
}

/// A line holding the words `w1` and `w2`, separated by a space.
pub open spec fn line2(w1: Seq<u8>, w2: Seq<u8>) -> Seq<u8> {
    w1 + seq![32u8] + w2 + seq![10u8]
}

/// The lines of one entry.
pub open spec fn render_item(item: SkeletonItem) -> Seq<u8> {
    match item {
        SkeletonItem::Joint(name) => line2(joint_keyword(), name) + line1(open_brace()),
        SkeletonItem::Close => line1(close_brace()),
        SkeletonItem::EndSite(offset) => line2(end_keyword(), site_keyword()) + line1(open_brace())
            + match offset {
            Some(values) => offset_line(values),
            None => Seq::empty(),
        } + line1(close_brace()),
        SkeletonItem::Channels(d, names) => count_line(channels_keyword(), seq![32u8], d, names),
        SkeletonItem::Offset(values) => offset_line(values),
    }
}

/// The lines of the entries, one after the other.
pub open spec fn render_items(items: Seq<SkeletonItem>) -> Seq<u8>
    decreases items.len(),
{
    if items.len() == 0 {
        Seq::empty()
    } else {
        render_items(items.drop_last()) + render_item(items.last())
    }
}

/// Joints opened minus joints closed among the first `k` entries.
pub open spec fn open_joints(items: Seq<SkeletonItem>, k: int) -> int
    decreases k,
{
    if k <= 0 {
        0
    } else {
        open_joints(items, k - 1) + joint_change(items[k - 1])
    }
}

/// The entries form a properly nested tree under the root: no joint is
/// closed before it is opened, every opened joint is closed, every joint
/// and channel is named, and every channel count is written in digits and
/// small enough that room can be reserved for that many channels.
pub open spec fn properly_nested(items: Seq<SkeletonItem>) -> bool {
    &&& forall|k: int| 0 <= k <= items.len() ==> #[trigger] open_joints(items, k) >= 0
    &&& open_joints(items, items.len() as int) == 0
    &&& forall|k: int| 0 <= k < items.len() ==> #[trigger] entry_ok(items[k])
}

/// An entry is well written (see [`properly_nested`]).
pub open spec fn entry_ok(item: SkeletonItem) -> bool {
    match item {
        SkeletonItem::Joint(name) => is_name(name),
        SkeletonItem::Channels(d, names) => {
            &&& is_digits(d)
            &&& digits_value(d) <= max_channel_count()
            &&& forall|i: int| 0 <= i < names.len() ==> is_name(#[trigger] names[i])
        },
        SkeletonItem::Offset(values) => forall|i: int|
            0 <= i < values.len() ==> is_name(#[trigger] values[i]),
        SkeletonItem::EndSite(Some(values)) => forall|i: int|
            0 <= i < values.len() ==> is_name(#[trigger] values[i]),
        _ => true,
    }
}

/// The motion section's first lines: `MOTION`, then `Frames:` and the
/// number of frames in decimal digits.
pub open spec fn motion_head(frames: Seq<u8>) -> Seq<u8> {
    line1(motion_keyword()) + count_line(frames_keyword(), seq![58u8, 32u8], frames, Seq::empty())
}

/// The hierarchy of a bvh file: `HIERARCHY`, the root joint `root` and its
/// braces around the entries.
pub open spec fn skeleton_bytes(root: Seq<u8>, items: Seq<SkeletonItem>) -> Seq<u8> {
    skeleton_head(root) + render_items(items) + line1(close_brace())
}

/// The lines before the entries.
pub open spec fn skeleton_head(root: Seq<u8>) -> Seq<u8> {
    line1(hierarchy_keyword()) + line2(root_keyword(), root) + line1(open_brace())
}

/// `w` stands in `bytes` from index `p` on.
pub open spec fn holds_at(bytes: Seq<u8>, p: int, w: Seq<u8>) -> bool {
    &&& 0 <= p
    &&& p + w.len() <= bytes.len()
    &&& forall|i: int| 0 <= i < w.len() ==> bytes[p + i] == #[trigger] w[i]
}

proof fn lemma_keywords_are_names()
    ensures
        is_name(hierarchy_keyword()),
        is_name(root_keyword()),
        is_name(joint_keyword()),
        is_name(end_keyword()),
        is_name(site_keyword()),
        is_name(open_brace()),
        is_name(close_brace()),
        word_of(hierarchy_keyword()) == LineWord::Hierarchy,
        word_of(root_keyword()) == LineWord::Root,
        word_of(joint_keyword()) == LineWord::Joint,
        word_of(end_keyword()) == LineWord::End,
        word_of(open_brace()) == LineWord::OpenBrace,
        word_of(close_brace()) == LineWord::CloseBrace,
        is_name(channels_keyword()),
        is_name(motion_keyword()),
        is_name(frames_keyword()),
        word_of(channels_keyword()) == LineWord::Channels,
        word_of(frames_keyword()) == LineWord::Frames,
{
    assert(channels_keyword() != hierarchy_keyword());
    assert(channels_keyword() != root_keyword());
    assert(channels_keyword() != joint_keyword());
    assert(channels_keyword() != end_keyword());
    assert(channels_keyword() != open_brace());
    assert(channels_keyword() != close_brace());
    assert(channels_keyword() != offset_keyword());
    assert(frames_keyword() != hierarchy_keyword());
    assert(frames_keyword() != root_keyword());
    assert(frames_keyword() != joint_keyword());
    assert(frames_keyword() != end_keyword());
    assert(frames_keyword() != open_brace());
    assert(frames_keyword() != close_brace());
    assert(frames_keyword()[0] != offset_keyword()[0]);
    assert(frames_keyword() != offset_keyword());
    assert(frames_keyword() != channels_keyword());
    assert(root_keyword() != hierarchy_keyword());
    assert(joint_keyword() != hierarchy_keyword());
    assert(joint_keyword() != root_keyword());
    assert(end_keyword() != hierarchy_keyword());
    assert(end_keyword() != root_keyword());
    assert(end_keyword() != joint_keyword());
    assert(open_brace() != hierarchy_keyword());
    assert(open_brace() != root_keyword());
    assert(open_brace() != joint_keyword());
    assert(open_brace() != end_keyword());
    assert(close_brace() != hierarchy_keyword());
    assert(close_brace() != root_keyword());
    assert(close_brace() != joint_keyword());
    assert(close_brace() != end_keyword());
    assert(close_brace()[0] != open_brace()[0]);
    assert(close_brace() != open_brace());
}

/// Bytes other than a line feed leave the state as it is.
proof fn lemma_scan_through(bytes: Seq<u8>, p: int, n: int)
    requires
        0 <= p,
        0 <= n,
        p + n <= bytes.len(),
        forall|i: int| p <= i < p + n ==> bytes[i] != 10,
    ensures
        scan(bytes, p + n) == scan(bytes, p),
    decreases n,
{
    if n > 0 {
        lemma_scan_through(bytes, p, n - 1);
    }
}

/// A run of name bytes from `a` to `b` is one token.
proof fn lemma_tokens_word(bytes: Seq<u8>, start: int, a: int, b: int)
    requires
        0 <= start <= a < b <= bytes.len() <= usize::MAX,
        forall|i: int| a <= i < b ==> is_name_byte(#[trigger] bytes[i]),
        !tokens_upto(bytes, start, a).in_token,
    ensures
        ({
            let t0 = tokens_upto(bytes, start, a);
            let t = tokens_upto(bytes, start, b);
            &&& t.in_token
            &&& t.token_start == a
            &&& t.tokens == t0.tokens
            &&& t.first == t0.first
            &&& t.second_is_site == t0.second_is_site
            &&& t0.tokens != 1 ==> t.second_number == t0.second_number && t.second_has_digit
                == t0.second_has_digit && t.second_value == t0.second_value
        }),
    decreases b - a,
{
    assert(is_name_byte(bytes[b - 1]));
    assert(!is_separator(bytes[b - 1]));
    if b - 1 > a {
        lemma_tokens_word(bytes, start, a, b - 1);
    }
    let t = tokens_upto(bytes, start, b - 1);
    assert(tokens_upto(bytes, start, b) == token_byte(b - 1, bytes[b - 1], t));
}

/// A line of name bytes only is neither trimmed at its start nor at its end.
proof fn lemma_untrimmed(bytes: Seq<u8>, p: int, e: int)
    requires
        0 <= p < e <= bytes.len(),
        is_name_byte(bytes[p]),
        is_name_byte(bytes[e - 1]),
    ensures
        trim_start(bytes, p, e) == p,
        trim_end(bytes, p, e) == e,
{
}

/// The facts of a line holding one name `w`, at `[p, p + w.len())`.
proof fn lemma_one_word_line(bytes: Seq<u8>, p: int, w: Seq<u8>)
    requires
        holds_at(bytes, p, w),
        bytes.len() <= usize::MAX,
        is_name(w),
    ensures
        ({
            let e = p + w.len();
            let t = line_info(bytes, p, e);
            &&& trim_start(bytes, p, e) == p
            &&& trim_end(bytes, p, e) == e
            &&& t.tokens == 1
            &&& t.first == word_of(w)
            &&& bytes.subrange(p, e) == w
        }),
{
    let e = p + w.len();
    assert(is_name_byte(w[0]) && is_name_byte(w[w.len() - 1]));
    lemma_untrimmed(bytes, p, e);
    assert forall|i: int| p <= i < e implies is_name_byte(#[trigger] bytes[i]) by {
        assert(bytes[p + (i - p)] == w[i - p]);
    }
    lemma_tokens_word(bytes, p, p, e);
    assert(bytes.subrange(p, e) =~= w);
}

/// The facts of a line holding two names `w1` and `w2` separated by a
/// space, at `[p, p + w1.len() + 1 + w2.len())`.
#[verifier::rlimit(50)]
#[verifier::spinoff_prover]
proof fn lemma_two_word_line(bytes: Seq<u8>, p: int, w1: Seq<u8>, w2: Seq<u8>)
    requires
        holds_at(bytes, p, w1 + seq![32u8] + w2),
        bytes.len() <= usize::MAX,
        is_name(w1),
        is_name(w2),
    ensures
        ({
            let e = p + w1.len() + 1 + w2.len();
            let t = line_info(bytes, p, e);
            &&& trim_start(bytes, p, e) == p
            &&& trim_end(bytes, p, e) == e
            &&& t.tokens == 2
            &&& t.first == word_of(w1)
            &&& t.second_is_site == (w2 == site_keyword())
        }),
{
    let line = w1 + seq![32u8] + w2;
    let m = p + w1.len();
    let e = m + 1 + w2.len();
    assert(line[0] == w1[0]);
    assert(line[line.len() - 1] == w2[w2.len() - 1]);
    assert(bytes[p + 0] == line[0]);
    assert(bytes[p + (line.len() - 1)] == line[line.len() - 1]);
    assert(is_name_byte(w1[0]) && is_name_byte(w2[w2.len() - 1]));
    lemma_untrimmed(bytes, p, e);
    assert forall|i: int| p <= i < m implies is_name_byte(#[trigger] bytes[i]) by {
        assert(bytes[p + (i - p)] == line[i - p]);
        assert(line[i - p] == w1[i - p]);
    }
    assert forall|i: int| m + 1 <= i < e implies is_name_byte(#[trigger] bytes[i]) by {
        assert(bytes[p + (i - p)] == line[i - p]);
        assert(line[i - p] == w2[i - m - 1]);
    }
    assert(bytes[p + w1.len()] == line[w1.len() as int]);
    assert(bytes[m] == 32);
    lemma_tokens_word(bytes, p, p, m);
    assert(bytes.subrange(p, m) =~= w1) by {
        assert forall|i: int| 0 <= i < w1.len() implies bytes.subrange(p, m)[i] == w1[i] by {
            assert(bytes[p + i] == line[i]);
        }
    }
    let t1 = tokens_upto(bytes, p, m + 1);
    assert(t1 == close_token(bytes, m, tokens_upto(bytes, p, m)));
    assert(t1.tokens == 1 && !t1.in_token && t1.first == word_of(w1));
    lemma_tokens_word(bytes, p, m + 1, e);
    assert(bytes.subrange(m + 1, e) =~= w2) by {
        assert forall|i: int| 0 <= i < w2.len() implies bytes.subrange(m + 1, e)[i] == w2[i] by {
            assert(bytes[p + (w1.len() + 1 + i)] == line[w1.len() + 1 + i]);
        }
    }
}

/// Reading a line from `p` up to its line feed at `p + n` applies the
/// parser's step on that line.
proof fn lemma_scan_line(bytes: Seq<u8>, p: int, n: int)
    requires
        0 <= p,
        0 <= n,
        p + n < bytes.len() <= usize::MAX,
        forall|i: int| p <= i < p + n ==> bytes[i] != 10,
        bytes[p + n] == 10,
        scan(bytes, p).line_start == p,
    ensures
        scan(bytes, p + n + 1) == (ScanState {
            line_start: (p + n + 1) as usize,
            ..line_step(bytes, p, p + n, scan(bytes, p))
        }),
{
    lemma_scan_through(bytes, p, n);
}

/// What the check keeps of the hierarchy while it reads the entries.
pub open spec fn reading_entries(s: ScanState, depth: int, channels: int, q: int) -> bool {
    &&& !s.rejected
    &&& s.phase == Phase::InHierarchy
    &&& s.depth == depth
    &&& !s.in_end_site
    &&& s.channels == channels
    &&& s.line_start == q
    &&& s.depth <= q
    &&& s.channels <= q
}

/// Reading a one-name line at `q`.
proof fn lemma_read_one_word(bytes: Seq<u8>, q: int, w: Seq<u8>)
    requires
        holds_at(bytes, q, line1(w)),
        is_name(w),
        bytes.len() <= usize::MAX,
        scan(bytes, q).line_start == q,
    ensures
        ({
            let e = q + w.len();
            let s = scan(bytes, q);
            let t = line_info(bytes, q, e);
            &&& t.tokens == 1
            &&& t.first == word_of(w)
            &&& trim_start(bytes, q, e) == q
            &&& trim_end(bytes, q, e) == e
            &&& bytes.subrange(q, e) == w
            &&& scan(bytes, e + 1) == (ScanState {
                line_start: (e + 1) as usize,
                ..line_step(bytes, q, e, s)
            })
            &&& !s.rejected && (s.phase == Phase::InHierarchy || s.phase == Phase::BeforeHierarchy)
                ==> line_step(bytes, q, e, s) == hierarchy_line(s, t, bytes.len() as int)
        }),
{
    let l = line1(w);
    assert forall|i: int| 0 <= i < w.len() implies bytes[q + i] == #[trigger] w[i] by {
        assert(l[i] == w[i]);
    }
    lemma_one_word_line(bytes, q, w);
    assert(l[w.len() as int] == 10);
    assert forall|i: int| q <= i < q + w.len() implies bytes[i] != 10 by {
        assert(bytes[q + (i - q)] == l[i - q]);
        assert(l[i - q] == w[i - q]);
        assert(is_name_byte(w[i - q]));
    }
    lemma_scan_line(bytes, q, w.len() as int);
}

/// Reading a two-name line at `q`.
proof fn lemma_read_two_words(bytes: Seq<u8>, q: int, w1: Seq<u8>, w2: Seq<u8>)
    requires
        holds_at(bytes, q, line2(w1, w2)),
        is_name(w1),
        is_name(w2),
        bytes.len() <= usize::MAX,
        scan(bytes, q).line_start == q,
    ensures
        ({
            let e = q + w1.len() + 1 + w2.len();
            let s = scan(bytes, q);
            let t = line_info(bytes, q, e);
            &&& t.tokens == 2
            &&& t.first == word_of(w1)
            &&& t.second_is_site == (w2 == site_keyword())
            &&& scan(bytes, e + 1) == (ScanState {
                line_start: (e + 1) as usize,
                ..line_step(bytes, q, e, s)
            })
            &&& !s.rejected && (s.phase == Phase::InHierarchy || s.phase == Phase::BeforeHierarchy)
                ==> line_step(bytes, q, e, s) == hierarchy_line(s, t, bytes.len() as int)
        }),
{
    let l = line2(w1, w2);
    let body = w1 + seq![32u8] + w2;
    assert(l =~= body + seq![10u8]);
    assert forall|i: int| 0 <= i < body.len() implies bytes[q + i] == #[trigger] body[i] by {
        assert(l[i] == body[i]);
    }
    lemma_two_word_line(bytes, q, w1, w2);
    assert(l[body.len() as int] == 10);
    assert forall|i: int| q <= i < q + body.len() implies bytes[i] != 10 by {
        assert(bytes[q + (i - q)] == l[i - q]);
        assert(l[i - q] == body[i - q]);
        if i - q < w1.len() {
            assert(body[i - q] == w1[i - q]);
            assert(is_name_byte(w1[i - q]));
        } else if i - q > w1.len() {
            assert(body[i - q] == w2[i - q - w1.len() - 1]);
            assert(is_name_byte(w2[i - q - w1.len() - 1]));
        }
    }
    lemma_scan_line(bytes, q, body.len() as int);
}

proof fn lemma_holds_split(bytes: Seq<u8>, q: int, a: Seq<u8>, b: Seq<u8>)
    requires
        holds_at(bytes, q, a + b),
    ensures
        holds_at(bytes, q, a),
        holds_at(bytes, q + a.len(), b),
{
    assert forall|i: int| 0 <= i < a.len() implies bytes[q + i] == #[trigger] a[i] by {
        assert((a + b)[i] == a[i]);
    }
    assert forall|i: int| 0 <= i < b.len() implies bytes[q + a.len() + i] == #[trigger] b[i] by {
        assert((a + b)[a.len() + i] == b[i]);
    }
}

proof fn lemma_render_concat(a: Seq<SkeletonItem>, b: Seq<SkeletonItem>)
    ensures
        render_items(a + b) == render_items(a) + render_items(b),
    decreases b.len(),
{
    if b.len() == 0 {
        assert(a + b =~= a);
        assert(render_items(a) + render_items(b) =~= render_items(a));
    } else {
        lemma_render_concat(a, b.drop_last());
        assert((a + b).drop_last() =~= a + b.drop_last());
        assert((a + b).last() == b.last());
        assert(render_items(a) + render_items(b) =~= render_items(a) + render_items(b.drop_last())
            + render_item(b.last()));
    }
}

/// Once nothing the parser reads can panic, the rest of the file does not
/// change that.
proof fn lemma_settled_stays(bytes: Seq<u8>, q: int, n: int)
    requires
        0 <= q <= n <= bytes.len(),
        !scan(bytes, q).rejected,
        scan(bytes, q).phase == Phase::Settled,
    ensures
        !scan(bytes, n).rejected,
        scan(bytes, n).phase == Phase::Settled,
    decreases n - q,
{
    if n > q {
        lemma_settled_stays(bytes, q, n - 1);
    }
}

/// After the lines before the entries the check is inside the root joint.
proof fn lemma_read_head(bytes: Seq<u8>, root: Seq<u8>)
    requires
        holds_at(bytes, 0, skeleton_head(root)),
        is_name(root),
        bytes.len() <= usize::MAX,
    ensures
        reading_entries(scan(bytes, skeleton_head(root).len() as int), 1, 0, skeleton_head(root).len() as int),
        !scan(bytes, skeleton_head(root).len() as int).child_joint,
{
    lemma_keywords_are_names();
    let l1 = line1(hierarchy_keyword());
    let l2 = line2(root_keyword(), root);
    let l3 = line1(open_brace());
    assert(skeleton_head(root) == l1 + l2 + l3);
    lemma_holds_split(bytes, 0, l1 + l2, l3);
    lemma_holds_split(bytes, 0, l1, l2);
    assert(scan(bytes, 0) == initial_state());
    lemma_read_one_word(bytes, 0, hierarchy_keyword());
    let q1 = l1.len() as int;
    assert(q1 == hierarchy_keyword().len() + 1);
    lemma_read_two_words(bytes, q1, root_keyword(), root);
    let q2 = q1 + l2.len();
    assert(q2 == q1 + root_keyword().len() + 1 + root.len() + 1);
    lemma_read_one_word(bytes, q2, open_brace());
}

/// Reading the entries of a properly nested skeleton keeps the check inside
/// the root joint, at the nesting depth of the entries read so far.
#[verifier::rlimit(50)]
#[verifier::spinoff_prover]
proof fn lemma_read_entries(bytes: Seq<u8>, root: Seq<u8>, items: Seq<SkeletonItem>, k: int)
    requires
        holds_at(bytes, 0, skeleton_head(root) + render_items(items)),
        is_name(root),
        properly_nested(items),
        bytes.len() <= usize::MAX,
        0 <= k <= items.len(),
    ensures
        ({
            let q = (skeleton_head(root).len() + render_items(items.take(k)).len()) as int;
            reading_entries(scan(bytes, q), 1 + open_joints(items, k), total_channels(items, k), q)
        }),
    decreases k,
{
    let head = skeleton_head(root);
    lemma_holds_split(bytes, 0, head, render_items(items));
    if k == 0 {
        assert(items.take(0) =~= Seq::<SkeletonItem>::empty());
        lemma_read_head(bytes, root);
    } else {
        lemma_read_entries(bytes, root, items, k - 1);
        lemma_keywords_are_names();
        let before = items.take(k - 1);
        let item = items[k - 1];
        assert(items.take(k).drop_last() =~= before);
        assert(render_items(items.take(k)) == render_items(before) + render_item(item));
        assert(items =~= items.take(k) + items.skip(k));
        lemma_render_concat(items.take(k), items.skip(k));
        lemma_holds_split(bytes, head.len() as int, render_items(items.take(k)), render_items(items.skip(k)));
        let q = (head.len() + render_items(before).len()) as int;
        lemma_holds_split(bytes, head.len() as int, render_items(before), render_item(item));
        let s = scan(bytes, q);
        let depth = 1 + open_joints(items, k - 1);
        let channels = total_channels(items, k - 1);
        assert(open_joints(items, k - 1) >= 0);
        assert(open_joints(items, k) >= 0);
        assert(entry_ok(items[k - 1]));
        lemma_read_item(bytes, q, item, depth, channels);
    }
}

/// Reading one entry at `q` changes the depth and the channels counted as
/// the entry says.
proof fn lemma_read_item(bytes: Seq<u8>, q: int, item: SkeletonItem, depth: int, channels: int)
    requires
        holds_at(bytes, q, render_item(item)),
        entry_ok(item),
        bytes.len() <= usize::MAX,
        depth >= 1,
        depth + joint_change(item) >= 1,
        reading_entries(scan(bytes, q), depth, channels, q),
    ensures
        ({
            let r = q + render_item(item).len();
            reading_entries(
                scan(bytes, r),
                depth + joint_change(item),
                channels + named_channels(item),
                r,
            )
        }),
{
    match item {
        SkeletonItem::Joint(name) => {
            lemma_read_joint(bytes, q, name, depth, channels);
        },
        SkeletonItem::Close => {
            lemma_read_close(bytes, q, depth, channels);
        },
        SkeletonItem::EndSite(offset) => {
            lemma_read_end_site(bytes, q, offset, depth, channels);
        },
        SkeletonItem::Channels(d, names) => {
            lemma_read_channels(bytes, q, d, names, depth, channels);
        },
        SkeletonItem::Offset(values) => {
            lemma_read_offset(bytes, q, values);
        },
    }
}

/// Reading `JOINT name` and its opening brace goes one level deeper.
#[verifier::rlimit(50)]
#[verifier::spinoff_prover]
proof fn lemma_read_joint(bytes: Seq<u8>, q: int, name: Seq<u8>, depth: int, channels: int)
    requires
        holds_at(bytes, q, render_item(SkeletonItem::Joint(name))),
        is_name(name),
        bytes.len() <= usize::MAX,
        depth >= 1,
        reading_entries(scan(bytes, q), depth, channels, q),
    ensures
        ({
            let r = q + render_item(SkeletonItem::Joint(name)).len();
            reading_entries(scan(bytes, r), depth + 1, channels, r)
        }),
{
    lemma_keywords_are_names();
    let l1 = line2(joint_keyword(), name);
    let l2 = line1(open_brace());
    lemma_holds_split(bytes, q, l1, l2);
    lemma_read_two_words(bytes, q, joint_keyword(), name);
    let q1 = (q + l1.len()) as int;
    assert(q1 == q + joint_keyword().len() + 1 + name.len() + 1);
    let s1 = scan(bytes, q1);
    assert(s1.depth == depth && s1.phase == Phase::InHierarchy && !s1.rejected && !s1.in_end_site
        && s1.channels == channels && s1.line_start == q1);
    lemma_read_one_word(bytes, q1, open_brace());
}

/// Reading the closing brace of a joint goes one level up, still inside
/// the root joint.
proof fn lemma_read_close(bytes: Seq<u8>, q: int, depth: int, channels: int)
    requires
        holds_at(bytes, q, render_item(SkeletonItem::Close)),
        bytes.len() <= usize::MAX,
        depth >= 2,
        reading_entries(scan(bytes, q), depth, channels, q),
    ensures
        ({
            let r = q + render_item(SkeletonItem::Close).len();
            reading_entries(scan(bytes, r), depth - 1, channels, r)
        }),
{
    lemma_keywords_are_names();
    lemma_read_one_word(bytes, q, close_brace());
}

/// Reading an end site and its braces comes back to the same level.
#[verifier::rlimit(50)]
#[verifier::spinoff_prover]
proof fn lemma_read_end_site(
    bytes: Seq<u8>,
    q: int,
    offset: Option<Seq<Seq<u8>>>,
    depth: int,
    channels: int,
)
    requires
        holds_at(bytes, q, render_item(SkeletonItem::EndSite(offset))),
        entry_ok(SkeletonItem::EndSite(offset)),
        bytes.len() <= usize::MAX,
        depth >= 1,
        reading_entries(scan(bytes, q), depth, channels, q),
    ensures
        ({
            let r = q + render_item(SkeletonItem::EndSite(offset)).len();
            reading_entries(scan(bytes, r), depth, channels, r)
        }),
{
    lemma_keywords_are_names();
    let l1 = line2(end_keyword(), site_keyword());
    let l2 = line1(open_brace());
    let inner = match offset {
        Some(values) => offset_line(values),
        None => Seq::empty(),
    };
    let l3 = line1(close_brace());
    assert(render_item(SkeletonItem::EndSite(offset)) == l1 + l2 + inner + l3);
    lemma_holds_split(bytes, q, l1 + l2 + inner, l3);
    lemma_holds_split(bytes, q, l1 + l2, inner);
    lemma_holds_split(bytes, q, l1, l2);
    lemma_read_two_words(bytes, q, end_keyword(), site_keyword());
    let q1 = (q + l1.len()) as int;
    assert(q1 == q + end_keyword().len() + 1 + site_keyword().len() + 1);
    let s1 = scan(bytes, q1);
    assert(s1.in_end_site && s1.depth == depth && s1.phase == Phase::InHierarchy && !s1.rejected
        && s1.channels == channels && s1.line_start == q1);
    lemma_read_one_word(bytes, q1, open_brace());
    let q2 = q1 + 2;
    let s2 = scan(bytes, q2);
    assert(s2.in_end_site && s2.depth == depth + 1 && s2.phase == Phase::InHierarchy && !s2.rejected
        && s2.channels == channels && s2.line_start == q2);
    let q3 = q2 + inner.len();
    match offset {
        Some(values) => {
            lemma_read_offset(bytes, q2, values);
        },
        None => {},
    }
    let s3 = scan(bytes, q3);
    assert(s3.in_end_site && s3.depth == depth + 1 && s3.phase == Phase::InHierarchy && !s3.rejected
        && s3.channels == channels && s3.line_start == q3);
    lemma_read_one_word(bytes, q3, close_brace());
}

/// Every properly nested skeleton of named joints with end sites as leaves
/// (a `JOINT` line may follow a closed end site or a closed joint, at any
/// depth) that names no channel, followed by anything at all, passes the
/// check made before parsing: its hierarchy is one on which the parser
/// takes no panicking step.
#[verifier::rlimit(50)]
#[verifier::spinoff_prover]
pub proof fn lemma_skeletons_pass_the_check(
    root: Seq<u8>,
    items: Seq<SkeletonItem>,
    rest: Seq<u8>,
)
    requires
        is_name(root),
        properly_nested(items),
        total_channels(items, items.len() as int) == 0,
        skeleton_bytes(root, items).len() + rest.len() <= usize::MAX,
    ensures
        bvh_header_checked(skeleton_bytes(root, items) + rest),
{
    let bytes = skeleton_bytes(root, items) + rest;
    let head = skeleton_head(root);
    let body = render_items(items);
    let close = line1(close_brace());
    assert(bytes == head + body + close + rest);
    assert forall|i: int| 0 <= i < bytes.len() implies bytes[0 + i] == #[trigger] bytes[i] by {}
    assert(holds_at(bytes, 0, bytes));
    lemma_holds_split(bytes, 0, head + body + close, rest);
    lemma_holds_split(bytes, 0, head + body, close);
    let n = items.len() as int;
    lemma_read_entries(bytes, root, items, n);
    assert(items.take(n) =~= items);
    let q = (head.len() + body.len()) as int;
    lemma_keywords_are_names();
    lemma_read_one_word(bytes, q, close_brace());
    lemma_settled_stays(bytes, q + 2, bytes.len() as int);
}

/// A run of digits from `a` to `b`, read as the second token, is counted
/// as the number they write.
proof fn lemma_tokens_digits(bytes: Seq<u8>, start: int, a: int, b: int)
    requires
        0 <= start <= a < b <= bytes.len() <= usize::MAX,
        forall|i: int| a <= i < b ==> 48 <= #[trigger] bytes[i] <= 57,
        !tokens_upto(bytes, start, a).in_token,
        tokens_upto(bytes, start, a).tokens == 1,
        digits_value(bytes.subrange(a, b)) < value_cap(),
    ensures
        ({
            let t0 = tokens_upto(bytes, start, a);
            let t = tokens_upto(bytes, start, b);
            &&& t.in_token
            &&& t.token_start == a
            &&& t.tokens == 1
            &&& t.first == t0.first
            &&& t.second_number
            &&& t.second_has_digit
            &&& t.second_value == digits_value(bytes.subrange(a, b))
        }),
    decreases b - a,
{
    let d = bytes.subrange(a, b);
    let prev = bytes.subrange(a, b - 1);
    assert(d.drop_last() =~= prev);
    assert(d.last() == bytes[b - 1]);
    assert(digits_value(d) == digits_value(prev) * 10 + (bytes[b - 1] - 48) as nat);
    assert(48 <= bytes[b - 1] <= 57);
    assert(!is_separator(bytes[b - 1]));
    let t = tokens_upto(bytes, start, b - 1);
    assert(tokens_upto(bytes, start, b) == token_byte(b - 1, bytes[b - 1], t));
    if b - 1 > a {
        assert(digits_value(prev) <= digits_value(d));
        lemma_tokens_digits(bytes, start, a, b - 1);
        assert(t.second_value == digits_value(prev));
        assert(t.second_value < value_cap());
        assert(next_value(t.second_value, bytes[b - 1]) == digits_value(d));
    } else {
        assert(prev =~= Seq::<u8>::empty());
        assert(digits_value(prev) == 0);
        assert(t == tokens_upto(bytes, start, a));
    }
}

/// Reading the names, each after a space, adds one token per name and
/// leaves what is known of the first two tokens as it is.
proof fn lemma_names_tokens(bytes: Seq<u8>, start: int, p: int, names: Seq<Seq<u8>>)
    requires
        0 <= start <= p,
        holds_at(bytes, p, names_part(names)),
        bytes.len() <= usize::MAX,
        forall|i: int| 0 <= i < names.len() ==> is_name(#[trigger] names[i]),
        tokens_upto(bytes, start, p).in_token,
        tokens_upto(bytes, start, p).tokens >= 1,
        tokens_upto(bytes, start, p).tokens <= p,
        tokens_upto(bytes, start, p).token_start < p,
    ensures
        ({
            let t0 = tokens_upto(bytes, start, p);
            let t = tokens_upto(bytes, start, p + names_part(names).len());
            &&& t.in_token
            &&& t.tokens == t0.tokens + names.len()
            &&& t.first == t0.first
            &&& t.second_number == t0.second_number
            &&& t.second_has_digit == t0.second_has_digit
            &&& t.second_value == t0.second_value
            &&& t.token_start < p + names_part(names).len()
        }),
    decreases names.len(),
{
    if names.len() > 0 {
        let prev = names.drop_last();
        let name = names.last();
        assert(names_part(names) == names_part(prev) + seq![32u8] + name);
        lemma_holds_split(bytes, p, names_part(prev) + seq![32u8], name);
        lemma_holds_split(bytes, p, names_part(prev), seq![32u8]);
        assert forall|i: int| 0 <= i < prev.len() implies is_name(#[trigger] prev[i]) by {
            assert(prev[i] == names[i]);
        }
        lemma_names_tokens(bytes, start, p, prev);
        lemma_names_part_len(prev);
        let m = p + names_part(prev).len();
        assert(bytes[m + 0] == seq![32u8][0]);
        let tm = tokens_upto(bytes, start, m);
        assert(tokens_upto(bytes, start, m + 1) == close_token(bytes, m, tm));
        assert(is_name(names[names.len() - 1]));
        assert forall|i: int| m + 1 <= i < m + 1 + name.len() implies is_name_byte(
            #[trigger] bytes[i],
        ) by {
            assert(bytes[m + 1 + (i - m - 1)] == name[i - m - 1]);
        }
        lemma_tokens_word(bytes, start, m + 1, m + 1 + name.len());
    }
}

/// A run of separators from `a` to `b` ends the token being read, if any.
proof fn lemma_tokens_gap(bytes: Seq<u8>, start: int, a: int, b: int)
    requires
        0 <= start <= a < b <= bytes.len(),
        forall|i: int| a <= i < b ==> (#[trigger] bytes[i] == 32 || bytes[i] == 58),
    ensures
        tokens_upto(bytes, start, b) == close_token(bytes, a, tokens_upto(bytes, start, a)),
    decreases b - a,
{
    assert(is_separator(bytes[b - 1]));
    if b - 1 > a {
        lemma_tokens_gap(bytes, start, a, b - 1);
    }
}

/// The facts of a line holding the name `w`, the separating bytes `sep`,
/// the digits `d` and the names `names`, at `[p, e)`.
#[verifier::rlimit(50)]
#[verifier::spinoff_prover]
proof fn lemma_count_line(
    bytes: Seq<u8>,
    p: int,
    w: Seq<u8>,
    sep: Seq<u8>,
    d: Seq<u8>,
    names: Seq<Seq<u8>>,
)
    requires
        holds_at(bytes, p, w + sep + d + names_part(names)),
        bytes.len() <= usize::MAX,
        is_name(w),
        is_gap(sep),
        is_digits(d),
        digits_value(d) < value_cap(),
        forall|i: int| 0 <= i < names.len() ==> is_name(#[trigger] names[i]),
    ensures
        ({
            let e = p + w.len() + sep.len() + d.len() + names_part(names).len();
            let t = line_info(bytes, p, e);
            &&& trim_start(bytes, p, e) == p
            &&& trim_end(bytes, p, e) == e
            &&& t.tokens == 2 + names.len()
            &&& t.first == word_of(w)
            &&& second_is_count(t)
            &&& t.second_value == digits_value(d)
        }),
{
    let m = p + w.len();
    let g = m + sep.len();
    let c = g + d.len();
    let e = c + names_part(names).len();
    lemma_holds_split(bytes, p, w + sep + d, names_part(names));
    lemma_holds_split(bytes, p, w + sep, d);
    lemma_holds_split(bytes, p, w, sep);
    assert forall|i: int| p <= i < m implies is_name_byte(#[trigger] bytes[i]) by {
        assert(bytes[p + (i - p)] == w[i - p]);
    }
    assert forall|i: int| m <= i < g implies (#[trigger] bytes[i] == 32 || bytes[i] == 58) by {
        assert(bytes[m + (i - m)] == sep[i - m]);
    }
    assert forall|i: int| g <= i < c implies 48 <= #[trigger] bytes[i] <= 57 by {
        assert(bytes[g + (i - g)] == d[i - g]);
    }
    // The line starts with a name byte and ends with a digit or a name byte.
    assert(is_name_byte(bytes[p]));
    if names.len() == 0 {
        assert(bytes[c - 1] == bytes[g + (d.len() - 1)]);
        assert(is_name_byte(bytes[e - 1]));
    } else {
        let prev = names.drop_last();
        let name = names.last();
        assert(names_part(names) == names_part(prev) + seq![32u8] + name);
        lemma_holds_split(bytes, c, names_part(prev) + seq![32u8], name);
        assert(is_name(names[names.len() - 1]));
        assert(bytes[(c + names_part(prev).len() + 1) + (name.len() - 1)] == name[name.len() - 1]);
        assert(is_name_byte(bytes[e - 1]));
    }
    lemma_untrimmed(bytes, p, e);
    lemma_tokens_word(bytes, p, p, m);
    assert(bytes.subrange(p, m) =~= w);
    lemma_tokens_gap(bytes, p, m, g);
    let t1 = tokens_upto(bytes, p, g);
    assert(t1.tokens == 1 && !t1.in_token && t1.first == word_of(w));
    assert(bytes.subrange(g, c) =~= d);
    lemma_tokens_digits(bytes, p, g, c);
    lemma_names_tokens(bytes, p, c, names);
    lemma_names_part_len(names);
}

/// Reading a line holding the name `w`, the separating bytes `sep`, the
/// digits `d` and the names `names`, at `q`.
#[verifier::rlimit(50)]
#[verifier::spinoff_prover]
proof fn lemma_read_count_line(
    bytes: Seq<u8>,
    q: int,
    w: Seq<u8>,
    sep: Seq<u8>,
    d: Seq<u8>,
    names: Seq<Seq<u8>>,
)
    requires
        holds_at(bytes, q, count_line(w, sep, d, names)),
        bytes.len() <= usize::MAX,
        is_name(w),
        is_gap(sep),
        is_digits(d),
        digits_value(d) < value_cap(),
        forall|i: int| 0 <= i < names.len() ==> is_name(#[trigger] names[i]),
        scan(bytes, q).line_start == q,
    ensures
        ({
            let e = q + w.len() + sep.len() + d.len() + names_part(names).len();
            let s = scan(bytes, q);
            let t = line_info(bytes, q, e);
            &&& trim_start(bytes, q, e) == q
            &&& trim_end(bytes, q, e) == e
            &&& t.tokens == 2 + names.len()
            &&& t.first == word_of(w)
            &&& second_is_count(t)
            &&& t.second_value == digits_value(d)
            &&& scan(bytes, e + 1) == (ScanState {
                line_start: (e + 1) as usize,
                ..line_step(bytes, q, e, s)
            })
        }),
{
    let body = w + sep + d + names_part(names);
    assert(count_line(w, sep, d, names) == body + seq![10u8]);
    lemma_holds_split(bytes, q, body, seq![10u8]);
    lemma_count_line(bytes, q, w, sep, d, names);
    let e = q + body.len();
    assert(bytes[e + 0] == seq![10u8][0]);
    lemma_holds_split(bytes, q, w + sep + d, names_part(names));
    lemma_holds_split(bytes, q, w + sep, d);
    lemma_holds_split(bytes, q, w, sep);
    let m = q + w.len();
    let g = m + sep.len();
    let c = g + d.len();
    assert forall|i: int| q <= i < e implies bytes[i] != 10 by {
        if i < m {
            assert(bytes[q + (i - q)] == w[i - q]);
            assert(is_name_byte(w[i - q]));
        } else if i < g {
            assert(bytes[m + (i - m)] == sep[i - m]);
            assert(sep[i - m] == 32 || sep[i - m] == 58);
        } else if i < c {
            assert(bytes[g + (i - g)] == d[i - g]);
        } else {
            lemma_names_bytes(bytes, c, names, i);
        }
    }
    lemma_scan_line(bytes, q, body.len() as int);
}

/// Tokens of the names read after a token, counted; the first token's
/// keyword is set when it is closed.
proof fn lemma_words_tokens(bytes: Seq<u8>, start: int, p: int, names: Seq<Seq<u8>>)
    requires
        0 <= start <= p,
        holds_at(bytes, p, names_part(names)),
        bytes.len() <= usize::MAX,
        forall|i: int| 0 <= i < names.len() ==> is_name(#[trigger] names[i]),
        tokens_upto(bytes, start, p).in_token,
        tokens_upto(bytes, start, p).tokens <= p,
        start <= tokens_upto(bytes, start, p).token_start < p,
    ensures
        ({
            let t0 = tokens_upto(bytes, start, p);
            let t = tokens_upto(bytes, start, p + names_part(names).len());
            &&& t.in_token
            &&& t.tokens == t0.tokens + names.len()
            &&& t.first == (if t0.tokens == 0 && names.len() > 0 {
                word_of(bytes.subrange(t0.token_start as int, p))
            } else {
                t0.first
            })
            &&& start <= t.token_start < p + names_part(names).len()
        }),
    decreases names.len(),
{
    if names.len() > 0 {
        let prev = names.drop_last();
        let name = names.last();
        assert(names_part(names) == names_part(prev) + seq![32u8] + name);
        lemma_holds_split(bytes, p, names_part(prev) + seq![32u8], name);
        lemma_holds_split(bytes, p, names_part(prev), seq![32u8]);
        assert forall|i: int| 0 <= i < prev.len() implies is_name(#[trigger] prev[i]) by {
            assert(prev[i] == names[i]);
        }
        lemma_words_tokens(bytes, start, p, prev);
        lemma_names_part_len(prev);
        let m = p + names_part(prev).len();
        assert(bytes[m + 0] == seq![32u8][0]);
        let tm = tokens_upto(bytes, start, m);
        assert(tokens_upto(bytes, start, m + 1) == close_token(bytes, m, tm));
        if prev.len() == 0 {
            assert(names_part(prev) =~= Seq::<u8>::empty());
        }
        assert(is_name(names[names.len() - 1]));
        assert forall|i: int| m + 1 <= i < m + 1 + name.len() implies is_name_byte(
            #[trigger] bytes[i],
        ) by {
            assert(bytes[m + 1 + (i - m - 1)] == name[i - m - 1]);
        }
        lemma_tokens_word(bytes, start, m + 1, m + 1 + name.len());
    }
}

/// Reading an `OFFSET` line, whatever its values, changes nothing the
/// check keeps of the hierarchy.
#[verifier::rlimit(50)]
#[verifier::spinoff_prover]
proof fn lemma_read_offset(bytes: Seq<u8>, q: int, values: Seq<Seq<u8>>)
    requires
        holds_at(bytes, q, offset_line(values)),
        forall|i: int| 0 <= i < values.len() ==> is_name(#[trigger] values[i]),
        bytes.len() <= usize::MAX,
        !scan(bytes, q).rejected,
        scan(bytes, q).phase == Phase::InHierarchy,
        scan(bytes, q).line_start == q,
    ensures
        scan(bytes, q + offset_line(values).len()) == (ScanState {
            line_start: (q + offset_line(values).len()) as usize,
            ..scan(bytes, q)
        }),
{
    lemma_keywords_are_names();
    let w = offset_keyword();
    let body = w + names_part(values);
    assert(offset_line(values) == body + seq![10u8]);
    lemma_holds_split(bytes, q, body, seq![10u8]);
    lemma_holds_split(bytes, q, w, names_part(values));
    let m = q + w.len();
    let e = m + names_part(values).len();
    assert(bytes[e + 0] == seq![10u8][0]);
    assert forall|i: int| q <= i < m implies is_name_byte(#[trigger] bytes[i]) by {
        assert(bytes[q + (i - q)] == w[i - q]);
    }
    // Trimming leaves the line as it is.
    assert(is_name_byte(bytes[q]));
    if values.len() == 0 {
        assert(is_name_byte(bytes[e - 1]));
    } else {
        let prev = values.drop_last();
        let value = values.last();
        assert(names_part(values) == names_part(prev) + seq![32u8] + value);
        lemma_holds_split(bytes, m, names_part(prev) + seq![32u8], value);
        assert(is_name(values[values.len() - 1]));
        assert(bytes[(m + names_part(prev).len() + 1) + (value.len() - 1)] == value[value.len() - 1]);
        assert(is_name_byte(bytes[e - 1]));
    }
    lemma_untrimmed(bytes, q, e);
    lemma_tokens_word(bytes, q, q, m);
    lemma_words_tokens(bytes, q, m, values);
    lemma_names_part_len(values);
    assert(bytes.subrange(q, m) =~= w);
    let t = line_info(bytes, q, e);
    assert(t.tokens == 1 + values.len());
    assert(t.first == LineWord::Offset);
    assert forall|i: int| q <= i < e implies bytes[i] != 10 by {
        if i >= m {
            lemma_names_bytes(bytes, m, values, i);
        }
    }
    lemma_scan_line(bytes, q, body.len() as int);
}

/// The names part holds no line feed.
proof fn lemma_names_bytes(bytes: Seq<u8>, p: int, names: Seq<Seq<u8>>, i: int)
    requires
        holds_at(bytes, p, names_part(names)),
        forall|k: int| 0 <= k < names.len() ==> is_name(#[trigger] names[k]),
        p <= i < p + names_part(names).len(),
    ensures
        bytes[i] != 10,
    decreases names.len(),
{
    let prev = names.drop_last();
    let name = names.last();
    assert(names_part(names) == names_part(prev) + seq![32u8] + name);
    lemma_holds_split(bytes, p, names_part(prev) + seq![32u8], name);
    lemma_holds_split(bytes, p, names_part(prev), seq![32u8]);
    let m = p + names_part(prev).len();
    if i < m {
        assert forall|k: int| 0 <= k < prev.len() implies is_name(#[trigger] prev[k]) by {
            assert(prev[k] == names[k]);
        }
        lemma_names_bytes(bytes, p, prev, i);
    } else if i == m {
        assert(bytes[m + 0] == seq![32u8][0]);
    } else {
        assert(is_name(names[names.len() - 1]));
        assert(bytes[m + 1 + (i - m - 1)] == name[i - m - 1]);
        assert(is_name_byte(name[i - m - 1]));
    }
}

/// Reading a `CHANNELS` line adds its names to the channels counted.
proof fn lemma_read_channels(
    bytes: Seq<u8>,
    q: int,
    d: Seq<u8>,
    names: Seq<Seq<u8>>,
    depth: int,
    channels: int,
)
    requires
        holds_at(bytes, q, render_item(SkeletonItem::Channels(d, names))),
        entry_ok(SkeletonItem::Channels(d, names)),
        bytes.len() <= usize::MAX,
        depth >= 1,
        reading_entries(scan(bytes, q), depth, channels, q),
    ensures
        ({
            let r = q + render_item(SkeletonItem::Channels(d, names)).len();
            reading_entries(scan(bytes, r), depth, channels + names.len(), r)
        }),
{
    lemma_keywords_are_names();
    assert(max_channel_count() < value_cap());
    assert(is_gap(seq![32u8]));
    lemma_read_count_line(bytes, q, channels_keyword(), seq![32u8], d, names);
    let e = q + channels_keyword().len() + 1 + d.len() + names_part(names).len();
    assert(e + 1 == q + render_item(SkeletonItem::Channels(d, names)).len());
    assert(names.len() <= names_part(names).len()) by {
        lemma_names_part_len(names);
    }
}

proof fn lemma_names_part_len(names: Seq<Seq<u8>>)
    ensures
        names_part(names).len() >= names.len(),
    decreases names.len(),
{
    if names.len() > 0 {
        lemma_names_part_len(names.drop_last());
    }
}

/// A whole bvh header passes the check made before parsing: a properly
/// nested skeleton of named joints with end sites as leaves and `CHANNELS`
/// lines anywhere in it, then `MOTION` and `Frames` with a count of frames,
/// followed by anything at all, as long as the motion values the file
/// declares (channels times frames) fit within the file. Such a file is one
/// on which the parser takes no panicking step.
#[verifier::rlimit(50)]
#[verifier::spinoff_prover]
pub proof fn lemma_files_pass_the_check(
    root: Seq<u8>,
    items: Seq<SkeletonItem>,
    frames: Seq<u8>,
    rest: Seq<u8>,
)
    requires
        is_name(root),
        properly_nested(items),
        is_digits(frames),
        skeleton_bytes(root, items).len() + motion_head(frames).len() + rest.len() <= usize::MAX,
        total_channels(items, items.len() as int) * digits_value(frames) <= skeleton_bytes(
            root,
            items,
        ).len() + motion_head(frames).len() + rest.len(),
        4 * (total_channels(items, items.len() as int) * digits_value(frames)) <= isize::MAX,
    ensures
        bvh_header_checked(skeleton_bytes(root, items) + motion_head(frames) + rest),
{
    let bytes = skeleton_bytes(root, items) + motion_head(frames) + rest;
    let head = skeleton_head(root);
    let body = render_items(items);
    let close = line1(close_brace());
    let motion = line1(motion_keyword());
    let frames_line = count_line(frames_keyword(), seq![58u8, 32u8], frames, Seq::empty());
    assert(bytes == head + body + close + (motion + frames_line) + rest);
    assert(holds_at(bytes, 0, bytes));
    lemma_holds_split(bytes, 0, head + body + close + (motion + frames_line), rest);
    lemma_holds_split(bytes, 0, head + body + close, motion + frames_line);
    lemma_holds_split(bytes, 0, head + body, close);
    let q = (head.len() + body.len()) as int;
    let q2 = q + 2;
    lemma_holds_split(bytes, q2, motion, frames_line);
    let n = items.len() as int;
    lemma_read_entries(bytes, root, items, n);
    assert(items.take(n) =~= items);
    lemma_keywords_are_names();
    let c = total_channels(items, n);
    lemma_read_root_close(bytes, q, c);
    if c == 0 {
        lemma_settled_stays(bytes, q2, bytes.len() as int);
    } else {
        lemma_read_motion_head(bytes, q2, frames, c);
        lemma_settled_stays(bytes, q2 + motion_head(frames).len(), bytes.len() as int);
    }
}

/// Closing the root joint ends the hierarchy: with no channel nothing the
/// parser reads afterwards can panic, otherwise the motion section comes.
proof fn lemma_read_root_close(bytes: Seq<u8>, q: int, c: int)
    requires
        holds_at(bytes, q, line1(close_brace())),
        bytes.len() <= usize::MAX,
        reading_entries(scan(bytes, q), 1, c, q),
    ensures
        ({
            let s = scan(bytes, q + 2);
            &&& !s.rejected
            &&& s.line_start == q + 2
            &&& s.channels == c
            &&& s.phase == (if c == 0 {
                Phase::Settled
            } else {
                Phase::AwaitMotion
            })
        }),
{
    lemma_keywords_are_names();
    lemma_read_one_word(bytes, q, close_brace());
}

/// Reading `MOTION` and `Frames` with a count of frames whose motion values
/// fit within the file ends where nothing the parser reads can panic.
#[verifier::rlimit(50)]
#[verifier::spinoff_prover]
proof fn lemma_read_motion_head(bytes: Seq<u8>, q: int, frames: Seq<u8>, c: int)
    requires
        holds_at(bytes, q, motion_head(frames)),
        is_digits(frames),
        bytes.len() <= usize::MAX,
        c >= 1,
        c * digits_value(frames) <= bytes.len(),
        4 * (c * digits_value(frames)) <= isize::MAX,
        !scan(bytes, q).rejected,
        scan(bytes, q).phase == Phase::AwaitMotion,
        scan(bytes, q).channels == c,
        scan(bytes, q).line_start == q,
    ensures
        !scan(bytes, q + motion_head(frames).len()).rejected,
        scan(bytes, q + motion_head(frames).len()).phase == Phase::Settled,
{
    lemma_keywords_are_names();
    let motion = line1(motion_keyword());
    let frames_line = count_line(frames_keyword(), seq![58u8, 32u8], frames, Seq::empty());
    lemma_holds_split(bytes, q, motion, frames_line);
    lemma_read_one_word(bytes, q, motion_keyword());
    let q3 = q + motion.len();
    let s3 = scan(bytes, q3);
    assert(s3.phase == Phase::AwaitFrames && !s3.rejected && s3.channels == c && s3.line_start
        == q3);
    let f = digits_value(frames);
    assert(f <= c * f) by (nonlinear_arith)
        requires
            c >= 1,
    ;
    assert(is_gap(seq![58u8, 32u8]));
    lemma_read_count_line(bytes, q3, frames_keyword(), seq![58u8, 32u8], frames, Seq::empty());
}

} // verus!
