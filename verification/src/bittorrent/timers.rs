//! A simple timing wheel.
//!
//! Every timer counts down in whole seconds by the wheel's base interval and
//! is due each time it reaches zero, when it starts over from its own
//! duration. The wheel itself does no waiting and runs no task: each `tick`
//! stands for one base interval and hands back, in order, the tasks that
//! became due; whoever drives the wheel sleeps between ticks and runs them.
use vstd::prelude::*;

verus! {

/// A timer that is due every `base` seconds.
pub struct Timer<T> {
    /// The timer's duration, in seconds.
    pub base: u64,
    /// Seconds left until the timer is next due.
    pub remaining: u64,
    /// What to run when the timer is due.
    pub task: T,
}

/// The remaining time of a timer after `delta` seconds, and whether it
/// became due (it then starts over from its duration).
pub open spec fn timer_step(base: u64, remaining: u64, delta: u64) -> (u64, bool) {
    if remaining - delta == 0 {
        (base, true)
    } else {
        ((remaining - delta) as u64, false)
    }
}

impl<T> Timer<T> {
    /// A timer due every `duration` seconds, first after `duration` seconds.
    pub fn new(duration: u64, task: T) -> (r: Timer<T>)
        ensures
            r.base == duration,
            r.remaining == duration,
            r.task == task,
    {
        Timer { base: duration, remaining: duration, task }
    }

    /// Lets `delta` seconds pass; returns whether the timer became due.
    pub fn tick(&mut self, delta: u64) -> (due: bool)
        requires
            delta <= old(self).remaining,
        ensures
            (final(self).remaining, due) == timer_step(old(self).base, old(self).remaining, delta),
            final(self).base == old(self).base,
            final(self).task == old(self).task,
    {
        self.remaining = self.remaining - delta;
        if self.remaining == 0 {
            self.remaining = self.base;
            true
        } else {
            false
        }
    }
}

/// A set of timers driven by one base interval.
pub struct Timers<T> {
    pub timers: Vec<Timer<T>>,
    /// The base interval, in seconds.
    pub base: u64,
}

/// Every timer of the wheel runs on multiples of the base interval, and has
/// time left until it is next due.
pub open spec fn wheel_wf<T>(timers: Seq<Timer<T>>, base: u64) -> bool {
    &&& base > 0
    &&& forall|i: int| #![trigger timers[i]] 0 <= i < timers.len() ==> {
        &&& timers[i].base % base == 0
        &&& 0 < timers[i].remaining <= timers[i].base
        &&& timers[i].remaining % base == 0
    }
}

/// The tasks of the timers that become due when `base` seconds pass, in
/// the order of the timers.
pub open spec fn due_tasks<T>(timers: Seq<Timer<T>>, base: u64) -> Seq<T>
    decreases timers.len(),
{
    if timers.len() == 0 {
        Seq::empty()
    } else {
        let rest = due_tasks(timers.drop_last(), base);
        if timers.last().remaining == base {
            rest.push(timers.last().task)
        } else {
            rest
        }
    }
}

/// A timer after `base` seconds have passed.
pub open spec fn stepped<T>(t: Timer<T>, base: u64) -> Timer<T> {
    Timer { base: t.base, remaining: timer_step(t.base, t.remaining, base).0, task: t.task }
}

impl<T: Copy> Timers<T> {
    /// A wheel with no timers and the given base interval.
    pub fn new(base: u64) -> (r: Timers<T>)
        ensures
            r.timers@ == Seq::<Timer<T>>::empty(),
            r.base == base,
    {
        Timers { timers: Vec::new(), base }
    }

    /// Adds a timer due every `duration` seconds; refused unless the
    /// duration is a multiple of the base interval.
    pub fn add(&mut self, duration: u64, task: T) -> (r: Result<(), &'static str>)
        requires
            old(self).base > 0,
        ensures
            final(self).base == old(self).base,
            r is Err <==> duration % old(self).base != 0,
            r is Err ==> final(self).timers@ == old(self).timers@ && r->Err_0@
                == "Duration must be a multiple of base"@,
            r is Ok ==> final(self).timers@ == old(self).timers@.push(
                Timer { base: duration, remaining: duration, task },
            ),
            wheel_wf(old(self).timers@, old(self).base) && duration > 0 ==> wheel_wf(
                final(self).timers@,
                final(self).base,
            ),
    {
        if duration % self.base != 0 {
            Err("Duration must be a multiple of base")
        } else {
            self.timers.push(Timer::new(duration, task));
            proof {
                let ts = self.timers@;
                assert(forall|i: int| 0 <= i < ts.len() - 1 ==> ts[i] == old(self).timers@[i]);
            }
            Ok(())
        }
    }

    /// Lets one base interval pass: every timer counts down, and the tasks
    /// of those that became due are returned in the order of the timers.
    pub fn tick(&mut self) -> (due: Vec<T>)
        requires
            wheel_wf(old(self).timers@, old(self).base),
        ensures
            final(self).base == old(self).base,
            final(self).timers@.len() == old(self).timers@.len(),
            forall|i: int|
                0 <= i < old(self).timers@.len() ==> #[trigger] final(self).timers@[i] == stepped(
                    old(self).timers@[i],
                    old(self).base,
                ),
            due@ == due_tasks(old(self).timers@, old(self).base),
            wheel_wf(final(self).timers@, final(self).base),
    {
        let ghost start = self.timers@;
        let base = self.base;
        let mut due: Vec<T> = Vec::new();
        let mut i: usize = 0;
        while i < self.timers.len()
            invariant
                base == self.base,
                wheel_wf(start, base),
                i <= self.timers@.len(),
                self.timers@.len() == start.len(),
                forall|k: int| 0 <= k < i ==> #[trigger] self.timers@[k] == stepped(start[k], base),
                forall|k: int| i <= k < start.len() ==> #[trigger] self.timers@[k] == start[k],
                due@ == due_tasks(start.subrange(0, i as int), base),
            decreases start.len() - i,
        {
            let t = &self.timers[i];
            assert(t == start[i as int]);
            assert(t.remaining % base == 0 && t.remaining > 0);
            let remaining = t.remaining;
            let tbase = t.base;
            let task = t.task;
            assert(base <= remaining) by {
                if remaining < base {
                    assert(remaining % base == remaining) by (nonlinear_arith)
                        requires
                            0 < remaining < base,
                    ;
                }
            }
            let fires = remaining == base;
            let left = if fires {
                tbase
            } else {
                remaining - base
            };
            self.timers.set(i, Timer { base: tbase, remaining: left, task });
            if fires {
                due.push(task);
            }
            proof {
                let pre = start.subrange(0, i as int + 1);
                assert(pre.drop_last() =~= start.subrange(0, i as int));
                assert(pre.last() == start[i as int]);
            }
            i = i + 1;
        }
        proof {
            assert(start.subrange(0, start.len() as int) =~= start);
            let ts = self.timers@;
            assert forall|k: int| #![trigger ts[k]] 0 <= k < ts.len() implies {
                &&& ts[k].base % base == 0
                &&& 0 < ts[k].remaining <= ts[k].base
                &&& ts[k].remaining % base == 0
            } by {
                let s = start[k];
                assert(ts[k] == stepped(s, base));
                assert(s.remaining % base == 0 && s.remaining > 0 && s.remaining <= s.base);
                if s.remaining != base {
                    assert(s.remaining >= base) by {
                        if s.remaining < base {
                            assert(s.remaining % base == s.remaining) by (nonlinear_arith)
                                requires
                                    0 < s.remaining < base,
                            ;
                        }
                    }
                    vstd::arithmetic::div_mod::lemma_mod_sub_multiples_vanish(
                        s.remaining as int,
                        base as int,
                    );
                    assert((s.remaining - base) % (base as int) == 0);
                }
            }
        }
        due
    }
}

/// A timer after `n` base intervals have passed.
pub open spec fn after_ticks<T>(t: Timer<T>, base: u64, n: nat) -> Timer<T>
    decreases n,
{
    if n == 0 {
        t
    } else {
        stepped(after_ticks(t, base, (n - 1) as nat), base)
    }
}

/// One more than `m`, modulo `k`.
proof fn lemma_succ_mod(m: nat, k: nat)
    requires
        k > 0,
    ensures
        m % k < k,
        (m + 1) as nat % k == (if m % k + 1 == k { 0 } else { m % k + 1 }),
{
    let q = m as int / k as int;
    let r = m as int % k as int;
    vstd::arithmetic::div_mod::lemma_fundamental_div_mod(m as int, k as int);
    vstd::arithmetic::div_mod::lemma_mod_bound(m as int, k as int);
    if r + 1 == k {
        assert(m + 1 == (q + 1) * k + 0) by (nonlinear_arith)
            requires
                m == k * q + r,
                r + 1 == k,
        ;
        vstd::arithmetic::div_mod::lemma_fundamental_div_mod_converse((m + 1) as int, k as int, q + 1, 0);
    } else {
        assert(m + 1 == q * k + (r + 1)) by (nonlinear_arith)
            requires
                m == k * q + r,
        ;
        vstd::arithmetic::div_mod::lemma_fundamental_div_mod_converse((m + 1) as int, k as int, q, r + 1);
    }
}

/// A timer started with a duration of `k` base intervals is due on every
/// `k`-th tick and on no other: after `n` ticks it has `n % k` intervals
/// behind it, and the tick that takes it to a multiple of `k` is the one
/// on which it is due.
pub proof fn lemma_timer_period<T>(t: Timer<T>, base: u64, k: nat, n: nat)
    requires
        base > 0,
        k > 0,
        t.base == k * base,
        t.remaining == t.base,
    ensures
        after_ticks(t, base, n).remaining == t.base - (n % k) * base,
        after_ticks(t, base, n).base == t.base,
        after_ticks(t, base, n).task == t.task,
        (after_ticks(t, base, n).remaining == base) == ((n + 1) as nat % k == 0),
    decreases n,
{
    let j = n % k;
    lemma_succ_mod(n, k);
    if n > 0 {
        lemma_timer_period(t, base, k, (n - 1) as nat);
        let prev = after_ticks(t, base, (n - 1) as nat);
        let i = ((n - 1) as nat) % k;
        lemma_succ_mod((n - 1) as nat, k);
        assert(((n - 1) as nat + 1) as nat == n);
        if i + 1 == k {
            assert(prev.remaining == base) by (nonlinear_arith)
                requires
                    prev.remaining == t.base - i * base,
                    t.base == k * base,
                    i + 1 == k,
            ;
            assert(n % k == 0);
            assert(after_ticks(t, base, n) == stepped(prev, base));
            assert(after_ticks(t, base, n).remaining == t.base);
            assert((n % k) * base == 0) by (nonlinear_arith)
                requires
                    n % k == 0,
            ;
        } else {
            assert(prev.remaining > base && prev.remaining - base == t.base - (i + 1) * base) by (nonlinear_arith)
                requires
                    prev.remaining == t.base - i * base,
                    t.base == k * base,
                    i + 1 < k,
                    base > 0,
            ;
            assert(n % k == i + 1);
            assert(after_ticks(t, base, n) == stepped(prev, base));
            assert(after_ticks(t, base, n).remaining == t.base - (i + 1) * base);
        }
    }
    if n == 0 {
        vstd::arithmetic::div_mod::lemma_small_mod(0, k);
        assert((n % k) * base == 0) by (nonlinear_arith)
            requires
                n % k == 0,
        ;
    }
    let cur = after_ticks(t, base, n);
    assert(cur.remaining == t.base - j * base);
    assert((cur.remaining == base) == (j + 1 == k)) by (nonlinear_arith)
        requires
            cur.remaining == t.base - j * base,
            t.base == k * base,
            base > 0,
    ;
}

} // verus!
