//! Fixed-length histories: newest value at the front, oldest at the back.
use std::collections::VecDeque;

use vstd::prelude::*;

verus! {

/// Push a new value to the front of a history while popping out the oldest
/// one at the back, so that a non-empty history keeps its length.
pub fn record<T>(records: &mut VecDeque<T>, value: T)
    ensures
        final(records)@ == seq![value] + (if old(records)@.len() > 0 {
            old(records)@.drop_last()
        } else {
            old(records)@
        }),
        old(records)@.len() > 0 ==> final(records)@.len() == old(records)@.len(),
{
    records.pop_back();
    records.push_front(value);
}

/// Reset a history to `target_len` copies of `default` when its length
/// differs from `target_len`; leave it as it is otherwise.
pub fn resize_records<T: Copy>(records: &mut VecDeque<T>, target_len: usize, default: T)
    ensures
        old(records)@.len() == target_len ==> final(records)@ == old(records)@,
        old(records)@.len() != target_len ==> final(records)@ == Seq::new(
            target_len as nat,
            |i: int| default,
        ),
{
    if records.len() != target_len {
        let mut fresh: VecDeque<T> = VecDeque::new();
        let mut i: usize = 0;
        while i < target_len
            invariant
                i <= target_len,
                fresh@ == Seq::new(i as nat, |k: int| default),
            decreases target_len - i,
        {
            fresh.push_back(default);
            i = i + 1;
            assert(fresh@ =~= Seq::new(i as nat, |k: int| default));
        }
        *records = fresh;
    }
}

/// The value a history is padded with: its oldest value, or `default` when
/// it is empty.
pub open spec fn padding_value<T>(histories: Seq<T>, default: T) -> T {
    if histories.len() > 0 {
        histories.last()
    } else {
        default
    }
}

/// Grow a history to `target_len` by repeating its oldest value (or
/// `default` when it is empty) at the back, or shrink it by dropping its
/// oldest values.
pub fn resize_history<T: Copy>(histories: &mut VecDeque<T>, target_len: usize, default: T)
    ensures
        final(histories)@.len() == target_len,
        target_len <= old(histories)@.len() ==> final(histories)@ == old(histories)@.take(
            target_len as int,
        ),
        target_len > old(histories)@.len() ==> final(histories)@ == old(histories)@ + Seq::new(
            (target_len - old(histories)@.len()) as nat,
            |i: int| padding_value(old(histories)@, default),
        ),
{
    let ghost original = histories@;
    let len = histories.len();
    if len < target_len {
        let back = if len > 0 {
            histories[len - 1]
        } else {
            default
        };
        let push_count = target_len - len;
        let mut i: usize = 0;
        while i < push_count
            invariant
                i <= push_count,
                push_count == target_len - original.len(),
                back == padding_value(original, default),
                histories@ == original + Seq::new(i as nat, |k: int| back),
            decreases push_count - i,
        {
            histories.push_back(back);
            i = i + 1;
            assert(histories@ =~= original + Seq::new(i as nat, |k: int| back));
        }
    } else if len > target_len {
        let pop_count = len - target_len;
        let mut i: usize = 0;
        while i < pop_count
            invariant
                i <= pop_count,
                pop_count == original.len() - target_len,
                histories@ == original.take(original.len() - i),
            decreases pop_count - i,
        {
            histories.pop_back();
            i = i + 1;
            assert(histories@ =~= original.take(original.len() - i));
        }
    } else {
        assert(original.take(target_len as int) =~= original);
    }
}

} // verus!
