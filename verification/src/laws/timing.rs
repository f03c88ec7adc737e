//! What timers add up.

use vstd::prelude::*;

use crate::perf::{reported, zeroed, Counter, Op, Timings};

verus! {

/// Each kind of work has a counter of its own, and each counter a kind.
pub proof fn lemma_counters(a: Op, b: Op, i: int)
    ensures
        0 <= a.place() < 9,
        a.place() == b.place() ==> a == b,
        Op::at(a.place()) == a,
        0 <= i < 9 ==> Op::at(i).place() == i,
{
}

/// A counter after a piece of work has one call more and its time more, modulo two to the 64, and counts
/// the same kind.
pub proof fn lemma_one_more_call(c: Counter, nanos: u64)
    ensures
        c.after(nanos).op == c.op,
        c.after(nanos).calls == (c.calls + 1) % 0x1_0000_0000_0000_0000,
        c.after(nanos).nanos == (c.nanos + nanos) % 0x1_0000_0000_0000_0000,
{
}

/// At first no counter has any time or call.
pub proof fn lemma_zeroed(op: Op)
    ensures
        zeroed().len() == 9,
        zeroed()[op.place()] == (Counter { op, nanos: 0, calls: 0 }),
{
}

/// A report shows the counters that were called and no others, and there is one only while the counters
/// are in use.
pub proof fn lemma_report(timings: Timings, c: Counter)
    ensures
        reported(timings) is Some <==> timings.enabled,
        reported(timings) matches Some(list) ==> (list.contains(c) <==> timings.counters@.contains(c) && c.calls > 0),
{
    lemma_called(timings.counters@, c);
}

/// The counters that were called, of a list.
proof fn lemma_called(all: Seq<Counter>, c: Counter)
    ensures
        all.filter(|c: Counter| c.calls > 0).contains(c) <==> all.contains(c) && c.calls > 0,
    decreases all.len(),
{
    reveal(Seq::filter);
    let called = |c: Counter| c.calls > 0;
    let list = all.filter(called);
    if all.len() > 0 {
        let first = all.drop_last();
        let last = all[all.len() - 1];
        lemma_called(first, c);
        let shown = first.filter(called);
        assert(all.contains(c) <==> first.contains(c) || last == c) by {
            assert(all =~= first.push(last));
            lemma_one_more(first, last, c);
        }
        if last.calls > 0 {
            assert(list =~= shown.push(last));
            lemma_one_more(shown, last, c);
        } else {
            assert(list =~= shown);
        }
    }
}

/// What a list with one item more contains.
proof fn lemma_one_more(list: Seq<Counter>, last: Counter, c: Counter)
    ensures
        list.push(last).contains(c) <==> list.contains(c) || last == c,
{
    let more = list.push(last);
    if list.contains(c) {
        let i = choose|i: int| 0 <= i < list.len() && list[i] == c;
        assert(more[i] == c);
    }
    assert(more[list.len() as int] == last);
    if more.contains(c) && last != c {
        let i = choose|i: int| 0 <= i < more.len() && more[i] == c;
        assert(list[i] == c);
    }
}

} // verus!
