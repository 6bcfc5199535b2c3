//! The blasts a scene schedules, in the order they go off.
//!
//! Each armed blast is due on a whole tick. They are kept with the latest
//! first, so the ones that are due sit at the end and are taken from there in
//! order; a scheduled blast is never scanned for.
use vstd::prelude::*;

verus! {

/// Whether entry `a` is kept ahead of entry `b`: a later tick is kept ahead,
/// and of two blasts due on one tick the one the scene lists first is kept
/// ahead, so it goes off after the other.
pub open spec fn kept_ahead(a: (u64, usize), b: (u64, usize)) -> bool {
    a.0 > b.0 || (a.0 == b.0 && a.1 < b.1)
}

/// Whether `s` is in schedule order.
pub open spec fn in_schedule_order(s: Seq<(u64, usize)>) -> bool {
    forall|j: int, k: int| 0 <= j < k < s.len() ==> kept_ahead(#[trigger] s[j], #[trigger] s[k])
}

/// Whether `s` holds exactly the blasts `ticks` schedules: blast `i` is due
/// on `ticks[i]`.
pub open spec fn holds_exactly(s: Seq<(u64, usize)>, ticks: Seq<u64>) -> bool {
    &&& s.len() == ticks.len()
    &&& forall|k: int| 0 <= k < s.len() ==> (#[trigger] s[k]).1 < ticks.len() && s[k].0 == ticks[s[k].1 as int]
    &&& forall|i: int| 0 <= i < ticks.len() ==> s.contains((ticks[i], i as usize))
}

/// Whether `s` holds exactly the armed blasts: each armed blast `i` once,
/// due on `ticks[i]`, and no blast that is not armed.
pub open spec fn holds_armed(s: Seq<(u64, usize)>, armed: Seq<bool>, ticks: Seq<u64>) -> bool {
    &&& forall|k: int|
        0 <= k < s.len() ==> (#[trigger] s[k]).1 < ticks.len() && armed[s[k].1 as int] && s[k].0 == ticks[s[k].1 as int]
    &&& forall|i: int| 0 <= i < ticks.len() && armed[i] ==> s.contains((ticks[i], i as usize))
    &&& forall|j: int, k: int| 0 <= j < k < s.len() ==> (#[trigger] s[j]).1 != (#[trigger] s[k]).1
}

/// Blasts waiting to go off: the tick each is due on and its index among the
/// scene's blasts.
#[derive(Debug)]
pub struct BlastSchedule {
    pending: Vec<(u64, usize)>,
}

impl View for BlastSchedule {
    type V = Seq<(u64, usize)>;

    closed spec fn view(&self) -> Seq<(u64, usize)> {
        self.pending@
    }
}

impl BlastSchedule {
    /// What every schedule keeps: its blasts in schedule order.
    #[verifier::type_invariant]
    spec fn well_ordered(self) -> bool {
        in_schedule_order(self.pending@)
    }

    /// Schedule blast `i` for tick `ticks[i]`.
    pub fn new(ticks: &Vec<u64>) -> (schedule: Self)
        ensures
            in_schedule_order(schedule@),
            holds_exactly(schedule@, ticks@),
    {
        let mut pending: Vec<(u64, usize)> = Vec::new();
        let mut i: usize = 0;
        while i < ticks.len()
            invariant
                i <= ticks@.len(),
                in_schedule_order(pending@),
                holds_exactly(pending@, ticks@.take(i as int)),
            decreases ticks@.len() - i,
        {
            let t = ticks[i];
            let mut p: usize = 0;
            while p < pending.len() && pending[p].0 >= t
                invariant
                    p <= pending@.len(),
                    forall|j: int| 0 <= j < p ==> (#[trigger] pending@[j]).0 >= t,
                decreases pending@.len() - p,
            {
                p = p + 1;
            }
            let ghost before = pending@;
            let ghost prefix = ticks@.take(i as int);
            pending.insert(p, (t, i));
            let ghost after = pending@;
            assert(ticks@.take(i + 1) =~= prefix.push(t));
            assert forall|j: int, k: int| 0 <= j < k < after.len() implies kept_ahead(#[trigger] after[j], #[trigger] after[k]) by {
                if k < p {
                    assert(after[j] == before[j] && after[k] == before[k]);
                } else if k == p {
                    assert(after[j] == before[j]);
                    assert(before[j].1 < i);
                } else if j < p {
                    assert(after[j] == before[j] && after[k] == before[k - 1]);
                } else if j == p {
                    assert(after[k] == before[k - 1]);
                    assert(before[p as int].0 < t);
                    if k - 1 > p {
                        assert(kept_ahead(before[p as int], before[k - 1]));
                    }
                } else {
                    assert(after[j] == before[j - 1] && after[k] == before[k - 1]);
                }
            }
            assert forall|k: int| 0 <= k < after.len() implies (#[trigger] after[k]).1 < i + 1 && after[k].0
                == ticks@.take(i + 1)[after[k].1 as int] by {
                if k < p {
                    assert(after[k] == before[k]);
                } else if k > p {
                    assert(after[k] == before[k - 1]);
                }
            }
            assert forall|x: int| 0 <= x < i + 1 implies after.contains((#[trigger] ticks@.take(i + 1)[x], x as usize)) by {
                if x < i {
                    let w = choose|w: int| 0 <= w < before.len() && before[w] == (prefix[x], x as usize);
                    if w < p {
                        assert(after[w] == before[w]);
                    } else {
                        assert(after[w + 1] == before[w]);
                    }
                } else {
                    assert(after[p as int] == (t, i));
                }
            }
            i = i + 1;
        }
        assert(ticks@.take(ticks@.len() as int) =~= ticks@);
        BlastSchedule { pending }
    }

    /// Schedule the armed blasts, blast `i` for tick `ticks[i]`: a blast that
    /// is not armed waits to be set off by something else and is never
    /// scheduled.
    pub fn armed(armed: &Vec<bool>, ticks: &Vec<u64>) -> (schedule: Self)
        requires
            armed@.len() == ticks@.len(),
        ensures
            in_schedule_order(schedule@),
            holds_armed(schedule@, armed@, ticks@),
    {
        let mut idx: Vec<usize> = Vec::new();
        let mut sub: Vec<u64> = Vec::new();
        let mut i: usize = 0;
        while i < ticks.len()
            invariant
                armed@.len() == ticks@.len(),
                i <= ticks@.len(),
                idx@.len() == sub@.len(),
                forall|m: int| 0 <= m < idx@.len() ==> (#[trigger] idx@[m]) < i && armed@[idx@[m] as int]
                    && sub@[m] == ticks@[idx@[m] as int],
                forall|m: int, q: int| 0 <= m < q < idx@.len() ==> #[trigger] idx@[m] < #[trigger] idx@[q],
                forall|x: int| 0 <= x < i && armed@[x] ==> #[trigger] idx@.contains(x as usize),
            decreases ticks@.len() - i,
        {
            let ghost before = idx@;
            if armed[i] {
                idx.push(i);
                sub.push(ticks[i]);
                assert(idx@[idx@.len() - 1] == i);
            }
            assert forall|x: int| 0 <= x < i + 1 && armed@[x] implies #[trigger] idx@.contains(x as usize) by {
                if x < i {
                    assert(before.contains(x as usize));
                    let w = choose|w: int| 0 <= w < before.len() && before[w] == x as usize;
                    assert(idx@[w] == x as usize);
                } else {
                    assert(idx@[idx@.len() - 1] == x as usize);
                }
            }
            i = i + 1;
        }
        let inner = Self::new(&sub);
        proof {
            use_type_invariant(&inner);
        }
        let ghost s = inner.pending@;
        let mut pending: Vec<(u64, usize)> = Vec::new();
        let mut k: usize = 0;
        while k < inner.pending.len()
            invariant
                s == inner.pending@,
                holds_exactly(s, sub@),
                in_schedule_order(s),
                idx@.len() == sub@.len(),
                k <= s.len(),
                pending@.len() == k,
                forall|t: int| 0 <= t < k ==> #[trigger] pending@[t] == (s[t].0, idx@[s[t].1 as int]),
            decreases s.len() - k,
        {
            let (t, m) = inner.pending[k];
            assert(m < sub@.len());
            pending.push((t, idx[m]));
            k = k + 1;
        }
        proof {
            assert forall|j: int, q: int| 0 <= j < q < pending@.len() implies kept_ahead(
                #[trigger] pending@[j],
                #[trigger] pending@[q],
            ) by {
                assert(kept_ahead(s[j], s[q]));
                let (mj, mq) = (s[j].1 as int, s[q].1 as int);
                if mj < mq {
                    assert(idx@[mj] < idx@[mq]);
                }
            }
            assert forall|q: int| 0 <= q < pending@.len() implies (#[trigger] pending@[q]).1 < ticks@.len()
                && armed@[pending@[q].1 as int] && pending@[q].0 == ticks@[pending@[q].1 as int] by {
                let m = s[q].1 as int;
                assert(idx@[m] < ticks@.len());
            }
            assert forall|x: int| 0 <= x < ticks@.len() && armed@[x] implies pending@.contains(
                (ticks@[x], x as usize),
            ) by {
                assert(idx@.contains(x as usize));
                let m = choose|m: int| 0 <= m < idx@.len() && idx@[m] == x as usize;
                assert(s.contains((sub@[m], m as usize)));
                let w = choose|w: int| 0 <= w < s.len() && s[w] == (sub@[m], m as usize);
                assert(pending@[w] == (ticks@[x], x as usize));
            }
            assert forall|j: int, q: int| 0 <= j < q < pending@.len() implies (#[trigger] pending@[j]).1
                != (#[trigger] pending@[q]).1 by {
                assert(kept_ahead(s[j], s[q]));
                let (mj, mq) = (s[j].1 as int, s[q].1 as int);
                if mj == mq {
                    assert(s[j].0 == sub@[mj] && s[q].0 == sub@[mq]);
                } else if mj < mq {
                    assert(idx@[mj] < idx@[mq]);
                } else {
                    assert(idx@[mq] < idx@[mj]);
                }
            }
        }
        BlastSchedule { pending }
    }

    /// Take every blast due on or before `tick`, earliest first; of two due
    /// on one tick, the one the scene lists later goes first.
    pub fn due(&mut self, tick: u64) -> (fired: Vec<usize>)
        ensures
            in_schedule_order(final(self)@),
            ({
                let s = old(self)@;
                let m = final(self)@.len();
                &&& m <= s.len()
                &&& final(self)@ == s.take(m as int)
                &&& forall|j: int| 0 <= j < m ==> (#[trigger] s[j]).0 > tick
                &&& forall|j: int| m <= j < s.len() ==> (#[trigger] s[j]).0 <= tick
                &&& fired@.len() == s.len() - m
                &&& forall|r: int| 0 <= r < fired@.len() ==> #[trigger] fired@[r] == s[s.len() - 1 - r].1
            }),
    {
        proof {
            use_type_invariant(&*self);
        }
        let ghost s = self.pending@;
        let mut pending: Vec<(u64, usize)> = Vec::new();
        std::mem::swap(&mut pending, &mut self.pending);
        let mut fired: Vec<usize> = Vec::new();
        loop
            invariant
                in_schedule_order(s),
                pending@ == s.take(pending@.len() as int),
                pending@.len() <= s.len(),
                forall|j: int| pending@.len() <= j < s.len() ==> (#[trigger] s[j]).0 <= tick,
                fired@.len() == s.len() - pending@.len(),
                forall|r: int| 0 <= r < fired@.len() ==> #[trigger] fired@[r] == s[s.len() - 1 - r].1,
            ensures
                pending@ == s.take(pending@.len() as int),
                pending@.len() <= s.len(),
                pending@.len() == 0 || pending@.last().0 > tick,
                forall|j: int| pending@.len() <= j < s.len() ==> (#[trigger] s[j]).0 <= tick,
                fired@.len() == s.len() - pending@.len(),
                forall|r: int| 0 <= r < fired@.len() ==> #[trigger] fired@[r] == s[s.len() - 1 - r].1,
            decreases pending@.len(),
        {
            let n = pending.len();
            if n == 0 {
                break;
            }
            let (at, index) = pending[n - 1];
            if at > tick {
                break;
            }
            pending.pop();
            fired.push(index);
            assert(pending@ =~= s.take(n - 1));
        }
        let ghost m = pending@.len() as int;
        assert forall|j: int| 0 <= j < m implies (#[trigger] s[j]).0 > tick by {
            if j < m - 1 {
                assert(kept_ahead(s[j], s[m - 1]));
            }
        }
        assert forall|j: int, k: int| 0 <= j < k < pending@.len() implies kept_ahead(
            #[trigger] pending@[j],
            #[trigger] pending@[k],
        ) by {
            assert(pending@[j] == s[j] && pending@[k] == s[k]);
        }
        self.pending = pending;
        fired
    }

    /// How many blasts are still waiting.
    pub fn len(&self) -> (n: usize)
        ensures
            n == self@.len(),
    {
        self.pending.len()
    }
}

/// What goes off at a tick is exactly what is due by then: once the schedule
/// is split where `due` splits it (everything before `m` later than `tick`,
/// everything from `m` on due), blast `i` is among those taken if and only if
/// its tick has come.
pub proof fn law_what_goes_off_is_what_is_due(s: Seq<(u64, usize)>, ticks: Seq<u64>, tick: u64, m: int, i: usize)
    requires
        holds_exactly(s, ticks),
        0 <= m <= s.len(),
        forall|j: int| 0 <= j < m ==> (#[trigger] s[j]).0 > tick,
        forall|j: int| m <= j < s.len() ==> (#[trigger] s[j]).0 <= tick,
        0 <= i < ticks.len(),
    ensures
        ticks[i as int] <= tick <==> exists|j: int| m <= j < s.len() && (#[trigger] s[j]).1 == i,
{
    assert(s.contains((ticks[i as int], i)));
    let w = choose|w: int| 0 <= w < s.len() && s[w] == (ticks[i as int], i);
    if ticks[i as int] <= tick {
        assert(m <= w);
        assert(s[w].1 == i);
    } else {
        assert forall|j: int| m <= j < s.len() implies (#[trigger] s[j]).1 != i by {
            assert(s[j].0 == ticks[s[j].1 as int]);
        }
    }
}

/// Whether `s` splits at `m` for `tick`: everything before `m` is later than
/// `tick`, everything from `m` on is due by then. `due` leaves the part
/// before the split and takes the rest.
pub open spec fn splits_at(s: Seq<(u64, usize)>, m: int, tick: u64) -> bool {
    &&& 0 <= m <= s.len()
    &&& forall|j: int| 0 <= j < m ==> (#[trigger] s[j]).0 > tick
    &&& forall|j: int| m <= j < s.len() ==> (#[trigger] s[j]).0 <= tick
}

/// Over two successive ticks a blast goes off exactly once, on the first of
/// them that has reached its tick: the first call takes blast `i` when its
/// tick has come by `t1`, the second when it comes after `t1` and by `t2`,
/// and never both.
pub proof fn law_a_blast_goes_off_once_at_its_tick(
    s: Seq<(u64, usize)>,
    ticks: Seq<u64>,
    t1: u64,
    t2: u64,
    m1: int,
    m2: int,
    i: usize,
)
    requires
        holds_exactly(s, ticks),
        splits_at(s, m1, t1),
        splits_at(s.take(m1), m2, t2),
        i < ticks.len(),
    ensures
        (exists|j: int| m1 <= j < s.len() && (#[trigger] s[j]).1 == i) <==> ticks[i as int] <= t1,
        (exists|j: int| m2 <= j < m1 && (#[trigger] s[j]).1 == i) <==> (t1 < ticks[i as int] && ticks[i as int] <= t2),
        !((exists|j: int| m1 <= j < s.len() && (#[trigger] s[j]).1 == i) && (exists|j: int|
            m2 <= j < m1 && (#[trigger] s[j]).1 == i)),
{
    law_what_goes_off_is_what_is_due(s, ticks, t1, m1, i);
    let r = s.take(m1);
    assert forall|j: int| m2 <= j < m1 implies (#[trigger] s[j]).0 <= t2 && s[j].0 > t1 by {
        assert(r[j] == s[j]);
    }
    assert(s.contains((ticks[i as int], i)));
    let w = choose|w: int| 0 <= w < s.len() && s[w] == (ticks[i as int], i);
    if t1 < ticks[i as int] && ticks[i as int] <= t2 {
        assert(w < m1);
        assert(r[w] == s[w]);
        assert(m2 <= w);
        assert(s[w].1 == i);
    }
    if exists|j: int| m2 <= j < m1 && (#[trigger] s[j]).1 == i {
        let j = choose|j: int| m2 <= j < m1 && (#[trigger] s[j]).1 == i;
        assert(s[j].0 == ticks[s[j].1 as int]);
    }
}

/// A blast that is not armed never goes off by itself: no schedule of the
/// armed blasts holds it, so no call of `due` takes it.
pub proof fn law_an_unarmed_blast_never_goes_off(s: Seq<(u64, usize)>, armed: Seq<bool>, ticks: Seq<u64>, i: usize)
    requires
        holds_armed(s, armed, ticks),
        i < ticks.len(),
        !armed[i as int],
    ensures
        forall|j: int| 0 <= j < s.len() ==> (#[trigger] s[j]).1 != i,
{
}

} // verus!
