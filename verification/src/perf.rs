//! Accumulating timers, one for each kind of work. Who reads the clock is up to the caller.

use vstd::prelude::*;

verus! {

/// The kinds of work that are timed.
#[derive(Debug, Clone, Copy, PartialEq, Eq, Structural)]
pub enum Op {
    Matmul,
    Rmsnorm,
    Softmax,
    Rope,
    AttnScores,
    AttnApply,
    Elementwise,
    Embed,
    Sample,
}

/// How many kinds there are.
pub const OPS: usize = 9;

impl Op {
    /// The place of the kind's counter.
    pub open spec fn place(self) -> int {
        match self {
            Op::Matmul => 0,
            Op::Rmsnorm => 1,
            Op::Softmax => 2,
            Op::Rope => 3,
            Op::AttnScores => 4,
            Op::AttnApply => 5,
            Op::Elementwise => 6,
            Op::Embed => 7,
            Op::Sample => 8,
        }
    }

    /// The kind whose counter stands at this place.
    pub open spec fn at(i: int) -> Op {
        if i == 0 {
            Op::Matmul
        } else if i == 1 {
            Op::Rmsnorm
        } else if i == 2 {
            Op::Softmax
        } else if i == 3 {
            Op::Rope
        } else if i == 4 {
            Op::AttnScores
        } else if i == 5 {
            Op::AttnApply
        } else if i == 6 {
            Op::Elementwise
        } else if i == 7 {
            Op::Embed
        } else {
            Op::Sample
        }
    }

    /// The place of the kind's counter.
    pub fn index(self) -> (r: usize)
        ensures
            r == self.place(),
            r < OPS,
    {
        match self {
            Op::Matmul => 0,
            Op::Rmsnorm => 1,
            Op::Softmax => 2,
            Op::Rope => 3,
            Op::AttnScores => 4,
            Op::AttnApply => 5,
            Op::Elementwise => 6,
            Op::Embed => 7,
            Op::Sample => 8,
        }
    }

    /// What the kind is called in reports.
    pub open spec fn title(self) -> Seq<char> {
        match self {
            Op::Matmul => "matmul"@,
            Op::Rmsnorm => "rmsnorm"@,
            Op::Softmax => "softmax"@,
            Op::Rope => "rope"@,
            Op::AttnScores => "attn scores"@,
            Op::AttnApply => "attn apply"@,
            Op::Elementwise => "add/swiglu"@,
            Op::Embed => "embed"@,
            Op::Sample => "sample"@,
        }
    }

    /// What the kind is called in reports.
    pub fn name(self) -> (r: &'static str)
        ensures
            r@ == self.title(),
    {
        match self {
            Op::Matmul => "matmul",
            Op::Rmsnorm => "rmsnorm",
            Op::Softmax => "softmax",
            Op::Rope => "rope",
            Op::AttnScores => "attn scores",
            Op::AttnApply => "attn apply",
            Op::Elementwise => "add/swiglu",
            Op::Embed => "embed",
            Op::Sample => "sample",
        }
    }
}

/// The time spent on one kind of work.
#[derive(Debug, Clone, Copy, PartialEq, Eq, Structural)]
pub struct Counter {
    pub op: Op,
    /// The sum wraps around at 2^64.
    pub nanos: u64,
    /// The count wraps around at 2^64.
    pub calls: u64,
}

impl Counter {
    /// No time yet.
    pub fn new(op: Op) -> (r: Counter)
        ensures
            r == (Counter { op, nanos: 0, calls: 0 }),
    {
        Counter { op, nanos: 0, calls: 0 }
    }

    /// The counter after one more piece of work.
    pub open spec fn after(self, nanos: u64) -> Counter {
        Counter { op: self.op, nanos: self.nanos.wrapping_add(nanos), calls: self.calls.wrapping_add(1) }
    }
}

/// The counters of all kinds, and whether they are in use.
pub struct Timings {
    pub enabled: bool,
    pub counters: Vec<Counter>,
}

/// The counters before any work.
pub open spec fn zeroed() -> Seq<Counter> {
    Seq::new(OPS as nat, |i: int| Counter { op: Op::at(i), nanos: 0, calls: 0 })
}

impl Timings {
    /// Whether each kind has its counter, in order.
    pub open spec fn wf(self) -> bool {
        &&& self.counters@.len() == OPS
        &&& forall|i: int| 0 <= i < OPS ==> (#[trigger] self.counters@[i]).op == Op::at(i)
    }

    /// Counters that are not in use yet.
    pub fn new() -> (r: Timings)
        ensures
            r.wf(),
            !r.enabled,
            r.counters@ == zeroed(),
    {
        let counters: Vec<Counter> = zero_counters();
        Timings { enabled: false, counters }
    }
}

/// Counters without any time.
fn zero_counters() -> (r: Vec<Counter>)
    ensures
        r@ == zeroed(),
{
    let mut counters: Vec<Counter> = Vec::new();
    counters.push(Counter::new(Op::Matmul));
    counters.push(Counter::new(Op::Rmsnorm));
    counters.push(Counter::new(Op::Softmax));
    counters.push(Counter::new(Op::Rope));
    counters.push(Counter::new(Op::AttnScores));
    counters.push(Counter::new(Op::AttnApply));
    counters.push(Counter::new(Op::Elementwise));
    counters.push(Counter::new(Op::Embed));
    counters.push(Counter::new(Op::Sample));
    assert(counters@ =~= zeroed());
    counters
}

/// Puts the counters in use.
pub fn enable(timings: &mut Timings)
    ensures
        final(timings).enabled,
        final(timings).counters == old(timings).counters,
{
    timings.enabled = true;
}

/// Work that is being timed.
#[derive(Debug, Clone, Copy, PartialEq, Eq, Structural)]
pub struct Guard {
    pub op: Op,
    /// When the work began, in nanoseconds, if the counters were in use.
    pub start: Option<u64>,
}

/// Begins to time a piece of work at the time `now`, in nanoseconds, if the counters are in use.
pub fn time(timings: &Timings, op: Op, now: u64) -> (r: Guard)
    ensures
        r == (Guard {
            op,
            start: if timings.enabled {
                Some(now)
            } else {
                None
            },
        }),
{
    let start: Option<u64> = if timings.enabled {
        Some(now)
    } else {
        None
    };
    Guard { op, start }
}

impl Guard {
    /// Ends the piece of work at the time `now`: its counter gets the time since its start and one
    /// call more, the others stay. Work that was begun while the counters were not in use changes
    /// nothing.
    pub fn finish(self, timings: &mut Timings, now: u64)
        requires
            old(timings).wf(),
        ensures
            final(timings).wf(),
            final(timings).enabled == old(timings).enabled,
            final(timings).counters@ == match self.start {
                Some(start) => old(timings).counters@.update(
                    self.op.place(),
                    old(timings).counters@[self.op.place()].after(
                        if now >= start {
                            (now - start) as u64
                        } else {
                            0
                        },
                    ),
                ),
                None => old(timings).counters@,
            },
    {
        if let Some(start) = self.start {
            let i: usize = self.op.index();
            let before: Counter = timings.counters[i];
            let nanos: u64 = if now >= start {
                now - start
            } else {
                0
            };
            timings.counters[i] = Counter { op: before.op, nanos: before.nanos.wrapping_add(nanos), calls: before.calls.wrapping_add(1) };
        }
    }
}

/// Sets all counters back to zero.
pub fn reset(timings: &mut Timings)
    ensures
        final(timings).wf(),
        final(timings).enabled == old(timings).enabled,
        final(timings).counters@ == zeroed(),
{
    timings.counters = zero_counters();
}

/// What a report shows: the counters of the kinds that were called, if the counters are in use.
pub open spec fn reported(timings: Timings) -> Option<Seq<Counter>> {
    if timings.enabled {
        Some(timings.counters@.filter(|c: Counter| c.calls > 0))
    } else {
        None
    }
}

/// The counters that a report shows. There is no report while they are not in use.
pub fn report(timings: &Timings) -> (r: Option<Vec<Counter>>)
    ensures
        match r {
            Some(list) => reported(*timings) == Some(list@),
            None => reported(*timings) is None,
        },
{
    if !timings.enabled {
        return None;
    }
    let ghost called = |c: Counter| c.calls > 0;
    let mut list: Vec<Counter> = Vec::new();
    let mut i: usize = 0;
    proof {
        reveal(Seq::filter);
        assert(timings.counters@.take(0).filter(called) =~= seq![]);
    }
    while i < timings.counters.len()
        invariant
            i <= timings.counters@.len(),
            called == (|c: Counter| c.calls > 0),
            list@ == timings.counters@.take(i as int).filter(called),
        decreases timings.counters@.len() - i,
    {
        let c: Counter = timings.counters[i];
        proof {
            reveal(Seq::filter);
            assert(timings.counters@.take(i + 1).drop_last() =~= timings.counters@.take(i as int));
        }
        if c.calls > 0 {
            list.push(c);
        }
        i = i + 1;
    }
    assert(timings.counters@.take(i as int) =~= timings.counters@);
    Some(list)
}

} // verus!
