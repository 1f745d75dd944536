//! The translation pass, as a mathematical model, and its guarantees.
//!
//! `scan` walks the source characters once, left to right, carrying the
//! instruction list built so far and a stack of pending loop starts: for each
//! unresolved `[`, the index its `LoopStart` occupies in the list and the
//! index of the `[` itself in the source. A `]` pops the most recent pending
//! entry, fixes the placeholder payload of that `LoopStart` up to point at the
//! about-to-be-appended `LoopEnd`, and appends the `LoopEnd` pointing back. A
//! `]` with nothing pending is a translation error, reported with its source
//! position.

use vstd::prelude::*;

use crate::instruction::Instruction;
use crate::instruction::matched;

verus! {

/// The seven characters that carry meaning; every other character is a
/// comment and contributes no instruction.
pub open spec fn is_symbol(c: char) -> bool {
    c == '>' || c == '<' || c == '+' || c == '-' || c == '.' || c == '[' || c == ']'
}

/// How many times `c` occurs in `s`.
pub open spec fn count_char(s: Seq<char>, c: char) -> int
    decreases s.len(),
{
    if s.len() == 0 {
        0
    } else {
        count_char(s.drop_last(), c) + if s.last() == c {
            1int
        } else {
            0int
        }
    }
}

/// How many of the seven meaningful symbols occur in `s`.
pub open spec fn count_symbols(s: Seq<char>) -> int
    decreases s.len(),
{
    if s.len() == 0 {
        0
    } else {
        count_symbols(s.drop_last()) + if is_symbol(s.last()) {
            1int
        } else {
            0int
        }
    }
}

/// A source is well nested when no prefix closes more loops than it has
/// opened, and the whole source opens and closes equally many.
pub open spec fn well_nested(s: Seq<char>) -> bool {
    &&& forall|k: int|
        0 <= k <= s.len() ==> count_char(#[trigger] s.take(k), ']') <= count_char(s.take(k), '[')
    &&& count_char(s, '[') == count_char(s, ']')
}

/// A pending loop start: the index its `LoopStart` occupies in the
/// instruction list, and the index of the `[` in the source.
pub type Pending = (usize, usize);

/// A malformed program, found at translation time. Each variant names the
/// character position (an index into the source, counting characters) at
/// which the fault was found.
#[derive(Clone, Copy, Debug, PartialEq, Eq, Structural)]
pub enum TranslateError {
    /// A `]` appeared with no open `[` left to match; `position` is the index
    /// of that `]`.
    UnmatchedClose { position: usize },
    /// At least one `[` was never closed; `position` is the index of the most
    /// recently opened one among them.
    UnmatchedOpen { position: usize },
}

/// The single left-to-right pass from position `i` on, starting from the
/// instructions and pending stack built so far. `Err(p)` reports the source
/// position `p` of a `]` that has no open `[` to match.
pub open spec fn scan(s: Seq<char>, i: int, ops: Seq<Instruction>, stack: Seq<Pending>) -> Result<
    (Seq<Instruction>, Seq<Pending>),
    int,
>
    decreases s.len() - i,
{
    if i < 0 || i >= s.len() {
        Ok((ops, stack))
    } else if s[i] == '>' {
        scan(s, i + 1, ops.push(Instruction::MovePointerForward), stack)
    } else if s[i] == '<' {
        scan(s, i + 1, ops.push(Instruction::MovePointerBackward), stack)
    } else if s[i] == '+' {
        scan(s, i + 1, ops.push(Instruction::IncrementCell), stack)
    } else if s[i] == '-' {
        scan(s, i + 1, ops.push(Instruction::DecrementCell), stack)
    } else if s[i] == '.' {
        scan(s, i + 1, ops.push(Instruction::EmitCell), stack)
    } else if s[i] == '[' {
        scan(
            s,
            i + 1,
            ops.push(Instruction::LoopStart(0usize)),
            stack.push((ops.len() as usize, i as usize)),
        )
    } else if s[i] == ']' {
        if stack.len() == 0 {
            Err(i)
        } else {
            scan(
                s,
                i + 1,
                ops.update(
                    stack.last().0 as int,
                    Instruction::LoopStart(ops.len() as usize),
                ).push(Instruction::LoopEnd(stack.last().0)),
                stack.drop_last(),
            )
        }
    } else {
        scan(s, i + 1, ops, stack)
    }
}

/// The whole translation: scan the source from the start with nothing built
/// yet. On success the pending stack that comes back holds exactly the
/// unmatched `[`s.
pub open spec fn translate(s: Seq<char>) -> Result<(Seq<Instruction>, Seq<Pending>), int> {
    scan(s, 0, Seq::empty(), Seq::empty())
}

proof fn lemma_count_char_add(a: Seq<char>, b: Seq<char>, c: char)
    ensures
        count_char(a + b, c) == count_char(a, c) + count_char(b, c),
    decreases b.len(),
{
    if b.len() == 0 {
        assert(a + b =~= a);
    } else {
        lemma_count_char_add(a, b.drop_last(), c);
        assert((a + b).drop_last() =~= a + b.drop_last());
        assert((a + b).last() == b.last());
    }
}

proof fn lemma_count_symbols_add(a: Seq<char>, b: Seq<char>)
    ensures
        count_symbols(a + b) == count_symbols(a) + count_symbols(b),
    decreases b.len(),
{
    if b.len() == 0 {
        assert(a + b =~= a);
    } else {
        lemma_count_symbols_add(a, b.drop_last());
        assert((a + b).drop_last() =~= a + b.drop_last());
        assert((a + b).last() == b.last());
    }
}

proof fn lemma_count_char_singleton(c: char, d: char)
    ensures
        count_char(seq![c], d) == if c == d {
            1int
        } else {
            0int
        },
{
    assert(seq![c].drop_last() =~= Seq::<char>::empty());
    assert(count_char(Seq::<char>::empty(), d) == 0);
    assert(seq![c].last() == c);
}

proof fn lemma_count_symbols_singleton(c: char)
    ensures
        count_symbols(seq![c]) == if is_symbol(c) {
            1int
        } else {
            0int
        },
{
    assert(seq![c].drop_last() =~= Seq::<char>::empty());
    assert(count_symbols(Seq::<char>::empty()) == 0);
    assert(seq![c].last() == c);
}

/// Every pending entry names a slot of the instruction list built so far.
spec fn stack_in_range(ops: Seq<Instruction>, stack: Seq<Pending>) -> bool {
    forall|k: int| 0 <= k < stack.len() ==> (#[trigger] stack[k]).0 < ops.len()
}

proof fn lemma_scan_len(s: Seq<char>, i: int, ops: Seq<Instruction>, stack: Seq<Pending>)
    requires
        0 <= i <= s.len(),
        stack_in_range(ops, stack),
        scan(s, i, ops, stack) is Ok,
    ensures
        scan(s, i, ops, stack)->Ok_0.0.len() == ops.len() + count_symbols(
            s.subrange(i, s.len() as int),
        ),
    decreases s.len() - i,
{
    if i == s.len() {
        assert(s.subrange(i, s.len() as int) =~= Seq::<char>::empty());
        assert(count_symbols(Seq::<char>::empty()) == 0);
    } else {
        let head = seq![s[i]];
        let tail = s.subrange(i + 1, s.len() as int);
        assert(s.subrange(i, s.len() as int) =~= head + tail);
        lemma_count_symbols_add(head, tail);
        lemma_count_symbols_singleton(s[i]);
        if s[i] == '>' {
            lemma_scan_len(s, i + 1, ops.push(Instruction::MovePointerForward), stack);
        } else if s[i] == '<' {
            lemma_scan_len(s, i + 1, ops.push(Instruction::MovePointerBackward), stack);
        } else if s[i] == '+' {
            lemma_scan_len(s, i + 1, ops.push(Instruction::IncrementCell), stack);
        } else if s[i] == '-' {
            lemma_scan_len(s, i + 1, ops.push(Instruction::DecrementCell), stack);
        } else if s[i] == '.' {
            lemma_scan_len(s, i + 1, ops.push(Instruction::EmitCell), stack);
        } else if s[i] == '[' {
            lemma_scan_len(
                s,
                i + 1,
                ops.push(Instruction::LoopStart(0usize)),
                stack.push((ops.len() as usize, i as usize)),
            );
        } else if s[i] == ']' {
            lemma_scan_len(
                s,
                i + 1,
                ops.update(
                    stack.last().0 as int,
                    Instruction::LoopStart(ops.len() as usize),
                ).push(Instruction::LoopEnd(stack.last().0)),
                stack.drop_last(),
            );
        } else {
            lemma_scan_len(s, i + 1, ops, stack);
        }
    }
}

/// Some pending entry names the instruction slot `x`.
spec fn in_stack(stack: Seq<Pending>, x: usize) -> bool {
    exists|k: int| 0 <= k < stack.len() && (#[trigger] stack[k]).0 == x
}

/// The `LoopEnd` at `j` points below itself at a `LoopStart` that points
/// straight back and is no longer pending.
spec fn end_resolved(ops: Seq<Instruction>, stack: Seq<Pending>, j: int) -> bool {
    let s0 = ops[j]->LoopEnd_0;
    &&& s0 < j
    &&& ops[s0 as int] == Instruction::LoopStart(j as usize)
    &&& !in_stack(stack, s0)
}

/// The `LoopStart` at `j` points above itself at a `LoopEnd` that points
/// straight back.
spec fn start_resolved(ops: Seq<Instruction>, j: int) -> bool {
    let e = ops[j]->LoopStart_0;
    &&& j < e < ops.len()
    &&& ops[e as int] == Instruction::LoopEnd(j as usize)
}

/// The translator's working invariant: pending entries name strictly
/// increasing `LoopStart` slots, every `LoopEnd` is resolved, and every
/// `LoopStart` that is not pending is resolved.
spec fn partial_matched(ops: Seq<Instruction>, stack: Seq<Pending>) -> bool {
    &&& stack_in_range(ops, stack)
    &&& forall|k: int| 0 <= k < stack.len() ==> ops[(#[trigger] stack[k]).0 as int] is LoopStart
    &&& forall|k1: int, k2: int| 0 <= k1 < k2 < stack.len() ==> stack[k1].0 < stack[k2].0
    &&& forall|j: int|
        0 <= j < ops.len() && (#[trigger] ops[j]) is LoopEnd ==> end_resolved(ops, stack, j)
    &&& forall|j: int|
        0 <= j < ops.len() && (#[trigger] ops[j]) is LoopStart && !in_stack(stack, j as usize)
            ==> start_resolved(ops, j)
}

proof fn lemma_in_stack_push(stack: Seq<Pending>, entry: Pending, x: usize)
    ensures
        in_stack(stack.push(entry), x) <==> (in_stack(stack, x) || entry.0 == x),
{
    if in_stack(stack.push(entry), x) {
        let k = choose|k: int|
            0 <= k < stack.push(entry).len() && (#[trigger] stack.push(entry)[k]).0 == x;
        if k < stack.len() {
            assert(stack[k].0 == x);
        }
    }
    if in_stack(stack, x) {
        let k = choose|k: int| 0 <= k < stack.len() && (#[trigger] stack[k]).0 == x;
        assert(stack.push(entry)[k].0 == x);
    }
    if entry.0 == x {
        assert(stack.push(entry)[stack.len() as int].0 == x);
    }
}

proof fn lemma_in_stack_drop_last(stack: Seq<Pending>, x: usize)
    requires
        stack.len() > 0,
    ensures
        in_stack(stack, x) <==> (in_stack(stack.drop_last(), x) || stack.last().0 == x),
{
    if in_stack(stack, x) {
        let k = choose|k: int| 0 <= k < stack.len() && (#[trigger] stack[k]).0 == x;
        if k < stack.len() - 1 {
            assert(stack.drop_last()[k].0 == x);
        }
    }
    if in_stack(stack.drop_last(), x) {
        let k = choose|k: int|
            0 <= k < stack.drop_last().len() && (#[trigger] stack.drop_last()[k]).0 == x;
        assert(stack[k].0 == x);
    }
    if stack.last().0 == x {
        assert(stack[stack.len() - 1].0 == x);
    }
}

proof fn lemma_partial_matched_push_plain(ops: Seq<Instruction>, stack: Seq<Pending>, x: Instruction)
    requires
        partial_matched(ops, stack),
        !(x is LoopStart),
        !(x is LoopEnd),
    ensures
        partial_matched(ops.push(x), stack),
{
    let ops2 = ops.push(x);
    assert forall|j: int| 0 <= j < ops2.len() && (#[trigger] ops2[j]) is LoopEnd implies end_resolved(
        ops2,
        stack,
        j,
    ) by {
        assert(j < ops.len());
        assert(end_resolved(ops, stack, j));
    }
    assert forall|j: int|
        0 <= j < ops2.len() && (#[trigger] ops2[j]) is LoopStart && !in_stack(stack, j as usize)
        implies start_resolved(ops2, j) by {
        assert(j < ops.len());
        assert(start_resolved(ops, j));
    }
}

proof fn lemma_partial_matched_open(ops: Seq<Instruction>, stack: Seq<Pending>, pos: usize)
    requires
        partial_matched(ops, stack),
        ops.len() < usize::MAX,
    ensures
        partial_matched(
            ops.push(Instruction::LoopStart(0usize)),
            stack.push((ops.len() as usize, pos)),
        ),
{
    let ops2 = ops.push(Instruction::LoopStart(0usize));
    let entry = (ops.len() as usize, pos);
    let stack2 = stack.push(entry);
    assert forall|k: int| 0 <= k < stack2.len() implies (#[trigger] stack2[k]).0 < ops2.len()
        && ops2[stack2[k].0 as int] is LoopStart by {
        if k < stack.len() {
            assert(stack2[k] == stack[k]);
            assert(ops2[stack2[k].0 as int] == ops[stack[k].0 as int]);
        } else {
            assert(stack2[k] == entry);
        }
    }
    assert forall|k1: int, k2: int| 0 <= k1 < k2 < stack2.len() implies stack2[k1].0
        < stack2[k2].0 by {
        if k2 < stack.len() {
        } else {
            assert(stack2[k1] == stack[k1]);
            assert(stack[k1].0 < ops.len());
        }
    }
    assert forall|j: int| 0 <= j < ops2.len() && (#[trigger] ops2[j]) is LoopEnd implies end_resolved(
        ops2,
        stack2,
        j,
    ) by {
        assert(j < ops.len());
        assert(end_resolved(ops, stack, j));
        let s0 = ops[j]->LoopEnd_0;
        lemma_in_stack_push(stack, entry, s0);
        assert(ops2[s0 as int] == ops[s0 as int]);
    }
    assert forall|j: int|
        0 <= j < ops2.len() && (#[trigger] ops2[j]) is LoopStart && !in_stack(stack2, j as usize)
        implies start_resolved(ops2, j) by {
        lemma_in_stack_push(stack, entry, j as usize);
        if j < ops.len() {
            assert(start_resolved(ops, j));
            let e = ops[j]->LoopStart_0;
            assert(ops2[e as int] == ops[e as int]);
        } else {
            assert(entry.0 == j as usize);
            assert(in_stack(stack2, j as usize));
        }
    }
}

proof fn lemma_partial_matched_close(ops: Seq<Instruction>, stack: Seq<Pending>)
    requires
        partial_matched(ops, stack),
        stack.len() > 0,
        ops.len() < usize::MAX,
    ensures
        partial_matched(
            ops.update(stack.last().0 as int, Instruction::LoopStart(ops.len() as usize)).push(
                Instruction::LoopEnd(stack.last().0),
            ),
            stack.drop_last(),
        ),
{
    let s0 = stack.last().0;
    let newlen = ops.len() as usize;
    assert(stack[stack.len() - 1] == stack.last());
    assert(s0 < ops.len());
    assert(ops[s0 as int] is LoopStart);
    let ops2 = ops.update(s0 as int, Instruction::LoopStart(newlen)).push(
        Instruction::LoopEnd(s0),
    );
    let stack2 = stack.drop_last();
    // entries below the popped one name slots strictly below s0
    assert forall|k: int| 0 <= k < stack2.len() implies (#[trigger] stack2[k]).0 < s0 by {
        assert(stack2[k] == stack[k]);
        assert(stack[k].0 < stack[stack.len() - 1].0);
    }
    assert forall|k: int| 0 <= k < stack2.len() implies (#[trigger] stack2[k]).0 < ops2.len()
        && ops2[stack2[k].0 as int] is LoopStart by {
        assert(stack2[k] == stack[k]);
        assert(ops2[stack2[k].0 as int] == ops[stack[k].0 as int]);
    }
    assert forall|k1: int, k2: int| 0 <= k1 < k2 < stack2.len() implies stack2[k1].0
        < stack2[k2].0 by {
        assert(stack2[k1] == stack[k1]);
        assert(stack2[k2] == stack[k2]);
    }
    assert forall|j: int| 0 <= j < ops2.len() && (#[trigger] ops2[j]) is LoopEnd implies end_resolved(
        ops2,
        stack2,
        j,
    ) by {
        if j == ops.len() {
            // the newly appended LoopEnd
            assert(ops2[j] == Instruction::LoopEnd(s0));
            assert(ops2[s0 as int] == Instruction::LoopStart(newlen));
            assert(newlen as int == j);
            if in_stack(stack2, s0) {
                let k = choose|k: int|
                    0 <= k < stack2.len() && (#[trigger] stack2[k]).0 == s0;
                assert(stack2[k].0 < s0);
            }
        } else {
            assert(j != s0 as int);
            assert(ops2[j] == ops[j]);
            assert(end_resolved(ops, stack, j));
            let t0 = ops[j]->LoopEnd_0;
            lemma_in_stack_drop_last(stack, t0);
            assert(t0 != s0);
            assert(ops2[t0 as int] == ops[t0 as int]);
        }
    }
    assert forall|j: int|
        0 <= j < ops2.len() && (#[trigger] ops2[j]) is LoopStart && !in_stack(stack2, j as usize)
        implies start_resolved(ops2, j) by {
        assert(j < ops.len());
        if j == s0 as int {
            assert(ops2[ops.len() as int] == Instruction::LoopEnd(s0));
            assert(ops2[j]->LoopStart_0 == newlen);
        } else {
            assert(ops2[j] == ops[j]);
            lemma_in_stack_drop_last(stack, j as usize);
            assert(!in_stack(stack, j as usize));
            assert(start_resolved(ops, j));
            let e = ops[j]->LoopStart_0;
            assert(ops[e as int] is LoopEnd);
            assert(e as int != s0 as int);
            assert(ops2[e as int] == ops[e as int]);
        }
    }
}

proof fn lemma_scan_matched(s: Seq<char>, i: int, ops: Seq<Instruction>, stack: Seq<Pending>)
    requires
        0 <= i <= s.len(),
        ops.len() + (s.len() - i) <= usize::MAX,
        partial_matched(ops, stack),
        scan(s, i, ops, stack) is Ok,
    ensures
        partial_matched(scan(s, i, ops, stack)->Ok_0.0, scan(s, i, ops, stack)->Ok_0.1),
    decreases s.len() - i,
{
    if i == s.len() {
    } else if s[i] == '>' {
        lemma_partial_matched_push_plain(ops, stack, Instruction::MovePointerForward);
        lemma_scan_matched(s, i + 1, ops.push(Instruction::MovePointerForward), stack);
    } else if s[i] == '<' {
        lemma_partial_matched_push_plain(ops, stack, Instruction::MovePointerBackward);
        lemma_scan_matched(s, i + 1, ops.push(Instruction::MovePointerBackward), stack);
    } else if s[i] == '+' {
        lemma_partial_matched_push_plain(ops, stack, Instruction::IncrementCell);
        lemma_scan_matched(s, i + 1, ops.push(Instruction::IncrementCell), stack);
    } else if s[i] == '-' {
        lemma_partial_matched_push_plain(ops, stack, Instruction::DecrementCell);
        lemma_scan_matched(s, i + 1, ops.push(Instruction::DecrementCell), stack);
    } else if s[i] == '.' {
        lemma_partial_matched_push_plain(ops, stack, Instruction::EmitCell);
        lemma_scan_matched(s, i + 1, ops.push(Instruction::EmitCell), stack);
    } else if s[i] == '[' {
        lemma_partial_matched_open(ops, stack, i as usize);
        lemma_scan_matched(
            s,
            i + 1,
            ops.push(Instruction::LoopStart(0usize)),
            stack.push((ops.len() as usize, i as usize)),
        );
    } else if s[i] == ']' {
        lemma_partial_matched_close(ops, stack);
        lemma_scan_matched(
            s,
            i + 1,
            ops.update(
                stack.last().0 as int,
                Instruction::LoopStart(ops.len() as usize),
            ).push(Instruction::LoopEnd(stack.last().0)),
            stack.drop_last(),
        );
    } else {
        lemma_scan_matched(s, i + 1, ops, stack);
    }
}

/// A translation that leaves nothing pending produces a loop pairing that is
/// a bijection: every `LoopStart` names the `LoopEnd` that names it back.
pub proof fn lemma_translate_matched(s: Seq<char>)
    requires
        s.len() <= usize::MAX,
        translate(s) is Ok,
        translate(s)->Ok_0.1.len() == 0,
    ensures
        matched(translate(s)->Ok_0.0),
{
    lemma_scan_matched(s, 0, Seq::empty(), Seq::empty());
    let p = translate(s)->Ok_0;
    assert forall|j: int| 0 <= j < p.0.len() && (#[trigger] p.0[j]) is LoopStart implies {
        let e = p.0[j]->LoopStart_0;
        &&& j < e < p.0.len()
        &&& p.0[e as int] == Instruction::LoopEnd(j as usize)
    } by {
        assert(!in_stack(p.1, j as usize));
        assert(start_resolved(p.0, j));
    }
    assert forall|j: int| 0 <= j < p.0.len() && (#[trigger] p.0[j]) is LoopEnd implies {
        let s0 = p.0[j]->LoopEnd_0;
        &&& s0 < j
        &&& p.0[s0 as int] == Instruction::LoopStart(j as usize)
    } by {
        assert(end_resolved(p.0, p.1, j));
    }
}

/// Whether every prefix of `s` between `i` and the end, seen from a point
/// where `depth` loops are already open, closes no more loops than are open.
pub open spec fn never_over_closed(s: Seq<char>, i: int, depth: int) -> bool {
    forall|k: int|
        i <= k <= s.len() ==> count_char(#[trigger] s.subrange(i, k), ']') <= count_char(
            s.subrange(i, k),
            '[',
        ) + depth
}

proof fn lemma_prefix_cond_shift(s: Seq<char>, i: int, len1: int, len2: int)
    requires
        0 <= i < s.len(),
        len1 >= 0,
        count_char(seq![s[i]], '[') - count_char(seq![s[i]], ']') == len2 - len1,
    ensures
        never_over_closed(s, i, len1) <==> never_over_closed(s, i + 1, len2),
{
    let head = seq![s[i]];
    assert forall|k: int| i + 1 <= k <= s.len() implies (count_char(
        #[trigger] s.subrange(i, k),
        '[',
    ) == count_char(head, '[') + count_char(s.subrange(i + 1, k), '[') && count_char(
        s.subrange(i, k),
        ']',
    ) == count_char(head, ']') + count_char(s.subrange(i + 1, k), ']')) by {
        assert(s.subrange(i, k) =~= head + s.subrange(i + 1, k));
        lemma_count_char_add(head, s.subrange(i + 1, k), '[');
        lemma_count_char_add(head, s.subrange(i + 1, k), ']');
    }
    if never_over_closed(s, i, len1) {
        assert forall|k: int| i + 1 <= k <= s.len() implies count_char(
            #[trigger] s.subrange(i + 1, k),
            ']',
        ) <= count_char(s.subrange(i + 1, k), '[') + len2 by {
            assert(count_char(s.subrange(i, k), ']') <= count_char(s.subrange(i, k), '[') + len1);
        }
    }
    if never_over_closed(s, i + 1, len2) {
        assert forall|k: int| i <= k <= s.len() implies count_char(
            #[trigger] s.subrange(i, k),
            ']',
        ) <= count_char(s.subrange(i, k), '[') + len1 by {
            if k == i {
                assert(s.subrange(i, k) =~= Seq::<char>::empty());
                assert(count_char(Seq::<char>::empty(), '[') == 0);
                assert(count_char(Seq::<char>::empty(), ']') == 0);
            } else {
                assert(count_char(s.subrange(i + 1, k), ']') <= count_char(
                    s.subrange(i + 1, k),
                    '[',
                ) + len2);
            }
        }
    }
}

proof fn lemma_scan_ok_iff(s: Seq<char>, i: int, ops: Seq<Instruction>, stack: Seq<Pending>)
    requires
        0 <= i <= s.len(),
    ensures
        (scan(s, i, ops, stack) is Ok) <==> never_over_closed(s, i, stack.len() as int),
        scan(s, i, ops, stack) is Ok ==> scan(s, i, ops, stack)->Ok_0.1.len() == stack.len()
            + count_char(s.subrange(i, s.len() as int), '[') - count_char(
            s.subrange(i, s.len() as int),
            ']',
        ),
    decreases s.len() - i,
{
    if i == s.len() {
        assert(s.subrange(i, s.len() as int) =~= Seq::<char>::empty());
        assert(count_char(Seq::<char>::empty(), '[') == 0);
        assert(count_char(Seq::<char>::empty(), ']') == 0);
        assert forall|k: int| i <= k <= s.len() implies count_char(
            #[trigger] s.subrange(i, k),
            ']',
        ) <= count_char(s.subrange(i, k), '[') + stack.len() by {
            assert(k == i);
            assert(s.subrange(i, k) =~= Seq::<char>::empty());
        }
    } else {
        let c = s[i];
        let head = seq![c];
        lemma_count_char_singleton(c, '[');
        lemma_count_char_singleton(c, ']');
        assert(s.subrange(i, s.len() as int) =~= head + s.subrange(i + 1, s.len() as int));
        lemma_count_char_add(head, s.subrange(i + 1, s.len() as int), '[');
        lemma_count_char_add(head, s.subrange(i + 1, s.len() as int), ']');
        if c == ']' && stack.len() == 0 {
            // the scan stops here, and so does the prefix condition
            assert(s.subrange(i, i + 1) =~= head);
            assert(!(count_char(s.subrange(i, i + 1), ']') <= count_char(
                s.subrange(i, i + 1),
                '[',
            ) + stack.len()));
        } else if c == '>' {
            lemma_scan_ok_iff(s, i + 1, ops.push(Instruction::MovePointerForward), stack);
            lemma_prefix_cond_shift(s, i, stack.len() as int, stack.len() as int);
        } else if c == '<' {
            lemma_scan_ok_iff(s, i + 1, ops.push(Instruction::MovePointerBackward), stack);
            lemma_prefix_cond_shift(s, i, stack.len() as int, stack.len() as int);
        } else if c == '+' {
            lemma_scan_ok_iff(s, i + 1, ops.push(Instruction::IncrementCell), stack);
            lemma_prefix_cond_shift(s, i, stack.len() as int, stack.len() as int);
        } else if c == '-' {
            lemma_scan_ok_iff(s, i + 1, ops.push(Instruction::DecrementCell), stack);
            lemma_prefix_cond_shift(s, i, stack.len() as int, stack.len() as int);
        } else if c == '.' {
            lemma_scan_ok_iff(s, i + 1, ops.push(Instruction::EmitCell), stack);
            lemma_prefix_cond_shift(s, i, stack.len() as int, stack.len() as int);
        } else if c == '[' {
            lemma_scan_ok_iff(
                s,
                i + 1,
                ops.push(Instruction::LoopStart(0usize)),
                stack.push((ops.len() as usize, i as usize)),
            );
            lemma_prefix_cond_shift(s, i, stack.len() as int, stack.len() as int + 1);
        } else if c == ']' {
            lemma_scan_ok_iff(
                s,
                i + 1,
                ops.update(
                    stack.last().0 as int,
                    Instruction::LoopStart(ops.len() as usize),
                ).push(Instruction::LoopEnd(stack.last().0)),
                stack.drop_last(),
            );
            lemma_prefix_cond_shift(s, i, stack.len() as int, stack.len() as int - 1);
        } else {
            lemma_scan_ok_iff(s, i + 1, ops, stack);
            lemma_prefix_cond_shift(s, i, stack.len() as int, stack.len() as int);
        }
    }
}

/// Translation succeeds with nothing left pending exactly on the well-nested
/// sources; more finely, it succeeds exactly when no prefix closes more loops
/// than it opens, and then leaves as many `[`s pending as the counts differ.
pub proof fn lemma_translate_ok_iff(s: Seq<char>)
    ensures
        (translate(s) is Ok) <==> never_over_closed(s, 0, 0),
        translate(s) is Ok ==> translate(s)->Ok_0.1.len() == count_char(s, '[') - count_char(
            s,
            ']',
        ),
        (translate(s) matches Ok(p) && p.1.len() == 0) <==> well_nested(s),
{
    lemma_scan_ok_iff(s, 0, Seq::empty(), Seq::empty());
    assert(s.subrange(0, s.len() as int) =~= s);
    assert forall|k: int| 0 <= k <= s.len() implies s.take(k) == s.subrange(0, k) by {
        assert(s.take(k) =~= s.subrange(0, k));
    }
    if well_nested(s) {
        assert forall|k: int| 0 <= k <= s.len() implies count_char(
            #[trigger] s.subrange(0, k),
            ']',
        ) <= count_char(s.subrange(0, k), '[') + 0 by {
            assert(count_char(s.take(k), ']') <= count_char(s.take(k), '['));
        }
    }
    if translate(s) matches Ok(p) && p.1.len() == 0 {
        assert forall|k: int| 0 <= k <= s.len() implies count_char(#[trigger] s.take(k), ']')
            <= count_char(s.take(k), '[') by {
            assert(count_char(s.subrange(0, k), ']') <= count_char(s.subrange(0, k), '[') + 0);
        }
    }
}

/// Every well-nested source translates, leaves nothing pending, and yields
/// an instruction list whose loop pairing is a bijection, at any nesting
/// depth.
pub proof fn lemma_well_nested_translation_matched(s: Seq<char>)
    requires
        s.len() <= usize::MAX,
        well_nested(s),
    ensures
        translate(s) is Ok,
        translate(s)->Ok_0.1.len() == 0,
        matched(translate(s)->Ok_0.0),
{
    lemma_translate_ok_iff(s);
    lemma_translate_matched(s);
}

/// Characters outside the seven meaningful symbols contribute no instruction:
/// a successful translation yields exactly one instruction per occurrence of
/// a meaningful symbol in the source.
pub proof fn lemma_instruction_count(s: Seq<char>)
    requires
        translate(s) is Ok,
    ensures
        translate(s)->Ok_0.0.len() == count_symbols(s),
{
    lemma_scan_len(s, 0, Seq::empty(), Seq::empty());
    assert(s.subrange(0, s.len() as int) =~= s);
}

} // verus!
