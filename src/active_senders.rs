//! Slot numbers for open connections, and a warning when connections are
//! re-established too often.
//!
//! Timestamps and windows are plain integers of one unit that the caller
//! picks (the process-wide tracker uses milliseconds).
use vstd::prelude::*;
use std::collections::VecDeque;

verus! {

pub type Slot = u32;

/// The slots: `next_slot` is the first never issued (or handed back at the
/// top of the range), `returned` the slots below it that were handed back,
/// in ascending order.
pub struct SlotsView {
    pub next_slot: nat,
    pub returned: Seq<Slot>,
}

/// In ascending order.
pub open spec fn sorted(s: Seq<Slot>) -> bool {
    forall|i: int, j: int| 0 <= i < j < s.len() ==> s[i] <= s[j]
}

/// `x` placed just after the last element of `s` that is not above it.
pub open spec fn insert_sorted(s: Seq<Slot>, x: Slot) -> Seq<Slot>
    decreases s.len(),
{
    if s.len() == 0 || s.last() <= x {
        s.push(x)
    } else {
        insert_sorted(s.drop_last(), x).push(s.last())
    }
}

/// Lowers `next` past every handed-back slot at the top of the range.
pub open spec fn collapse(next: nat, r: Seq<Slot>) -> SlotsView
    decreases r.len(),
{
    if next > 0 && r.len() > 0 && r.last() == next - 1 {
        collapse((next - 1) as nat, r.drop_last())
    } else {
        SlotsView { next_slot: next, returned: r }
    }
}

/// The slots once `slot` is handed back.
pub open spec fn restore_of(s: SlotsView, slot: Slot) -> SlotsView {
    if s.next_slot > 0 && slot == s.next_slot - 1 {
        collapse((s.next_slot - 1) as nat, s.returned)
    } else {
        SlotsView { next_slot: s.next_slot, returned: insert_sorted(s.returned, slot) }
    }
}

/// A slot can be issued: one was handed back, or the range can grow.
pub open spec fn can_issue(s: SlotsView) -> bool {
    s.returned.len() > 0 || s.next_slot < u32::MAX
}

/// The slot that is issued next: the lowest handed back, else `next_slot`.
pub open spec fn issued_of(s: SlotsView) -> Slot {
    if s.returned.len() > 0 {
        s.returned[0]
    } else {
        s.next_slot as Slot
    }
}

/// The slots once one is issued.
pub open spec fn next_of(s: SlotsView) -> SlotsView {
    if s.returned.len() > 0 {
        SlotsView { next_slot: s.next_slot, returned: s.returned.drop_first() }
    } else {
        SlotsView { next_slot: s.next_slot + 1, returned: s.returned }
    }
}

/// Issues small slot numbers, reusing the lowest handed-back one first.
pub struct Slots {
    next_slot: Slot,
    returned: VecDeque<Slot>,
}

impl View for Slots {
    type V = SlotsView;

    closed spec fn view(&self) -> SlotsView {
        SlotsView { next_slot: self.next_slot as nat, returned: self.returned@ }
    }
}

proof fn lemma_insert_at_scan(s: Seq<Slot>, x: Slot, k: int)
    requires
        0 <= k <= s.len(),
        k == 0 || s[k - 1] <= x,
        forall|j: int| k <= j < s.len() ==> #[trigger] s[j] > x,
    ensures
        insert_sorted(s, x) == s.insert(k, x),
    decreases s.len(),
{
    if k == s.len() {
        assert(s.push(x) =~= s.insert(k, x));
    } else {
        let t = s.drop_last();
        assert forall|j: int| k <= j < t.len() implies #[trigger] t[j] > x by {
            assert(t[j] == s[j]);
        }
        lemma_insert_at_scan(t, x, k);
        assert(t.insert(k, x).push(s.last()) =~= s.insert(k, x));
    }
}

/// Placing a slot keeps ascending order, adds one element, and brings in
/// nothing but that slot.
pub proof fn lemma_insert_sorted_sorted(s: Seq<Slot>, x: Slot)
    requires
        sorted(s),
    ensures
        sorted(insert_sorted(s, x)),
        insert_sorted(s, x).len() == s.len() + 1,
        forall|i: int| 0 <= i < insert_sorted(s, x).len() ==> {
            ||| #[trigger] insert_sorted(s, x)[i] == x
            ||| s.contains(insert_sorted(s, x)[i])
        },
    decreases s.len(),
{
    if s.len() > 0 && s.last() > x {
        let t = s.drop_last();
        lemma_insert_sorted_sorted(t, x);
        let u = insert_sorted(t, x);
        assert forall|i: int| 0 <= i < u.len() implies #[trigger] u[i] <= s.last() by {
            if u[i] != x {
                let j = choose|j: int| 0 <= j < t.len() && t[j] == u[i];
                assert(s[j] == t[j]);
            }
        }
        assert forall|i: int| 0 <= i < insert_sorted(s, x).len() implies {
            ||| #[trigger] insert_sorted(s, x)[i] == x
            ||| s.contains(insert_sorted(s, x)[i])
        } by {
            if i < u.len() && u[i] != x {
                let j = choose|j: int| 0 <= j < t.len() && t[j] == u[i];
                assert(s[j] == t[j]);
            }
            if i == u.len() {
                assert(s[s.len() - 1] == s.last());
            }
        }
    } else {
        assert forall|i: int| 0 <= i < s.len() implies s.contains(#[trigger] s.push(x)[i]) by {
            assert(s[i] == s.push(x)[i]);
        }
    }
}

proof fn lemma_collapse_sorted(next: nat, r: Seq<Slot>)
    requires
        sorted(r),
    ensures
        sorted(collapse(next, r).returned),
    decreases r.len(),
{
    if next > 0 && r.len() > 0 && r.last() == next - 1 {
        lemma_collapse_sorted((next - 1) as nat, r.drop_last());
    }
}

impl Slots {
    /// The handed-back slots are in ascending order.
    pub open spec fn wf(&self) -> bool {
        sorted(self@.returned)
    }

    /// No slot issued yet.
    pub fn new() -> (s: Self)
        ensures
            s@.next_slot == 0,
            s@.returned == Seq::<Slot>::empty(),
            s.wf(),
    {
        Slots { next_slot: 0, returned: VecDeque::new() }
    }

    /// Issues a slot: the lowest handed-back one, else the next of the range.
    pub fn next(&mut self) -> (r: Slot)
        requires
            old(self).wf(),
            can_issue(old(self)@),
        ensures
            final(self).wf(),
            r == issued_of(old(self)@),
            final(self)@ == next_of(old(self)@),
            forall|i: int| 0 <= i < old(self)@.returned.len() ==> r <= #[trigger] old(self)@.returned[i],
    {
        match self.returned.pop_front() {
            Some(returned) => {
                assert(self@.returned =~= old(self)@.returned.drop_first());
                returned
            },
            None => {
                let slot = self.next_slot;
                self.next_slot += 1;
                slot
            },
        }
    }

    /// Hands `slot_id` back. The top slot of the range lowers the range, past
    /// every handed-back slot right below it too; any other slot joins the
    /// handed-back ones in ascending order.
    pub fn restore(&mut self, slot_id: Slot)
        requires
            old(self).wf(),
        ensures
            final(self).wf(),
            final(self)@ == restore_of(old(self)@, slot_id),
    {
        if self.next_slot > 0 && slot_id == self.next_slot - 1 {
            self.next_slot -= 1;
            let ghost target = collapse(self.next_slot as nat, self.returned@);
            proof {
                lemma_collapse_sorted(self.next_slot as nat, self.returned@);
            }
            loop
                invariant
                    collapse(self.next_slot as nat, self.returned@) == target,
                ensures
                    target == self@,
                decreases self.returned@.len(),
            {
                if self.next_slot == 0 || self.returned.len() == 0 {
                    break;
                }
                let last = self.returned[self.returned.len() - 1];
                if last != self.next_slot - 1 {
                    break;
                }
                self.returned.pop_back();
                self.next_slot -= 1;
            }
        } else {
            let mut k = self.returned.len();
            while k > 0 && self.returned[k - 1] > slot_id
                invariant
                    0 <= k <= self.returned@.len(),
                    forall|j: int| k <= j < self.returned@.len() ==> #[trigger] self.returned@[j] > slot_id,
                decreases k,
            {
                k -= 1;
            }
            proof {
                lemma_insert_at_scan(self.returned@, slot_id, k as int);
                lemma_insert_sorted_sorted(self.returned@, slot_id);
            }
            self.returned.insert(k, slot_id);
        }
    }

    /// The first slot of the range not yet issued.
    pub fn next_slot(&self) -> (r: Slot)
        ensures
            r == self@.next_slot,
    {
        self.next_slot
    }

    /// How many slots below `next_slot` were handed back.
    pub fn returned_len(&self) -> (r: usize)
        ensures
            r == self@.returned.len(),
    {
        self.returned.len()
    }

    /// The `i`-th lowest handed-back slot.
    pub fn returned_at(&self, i: usize) -> (r: Slot)
        requires
            i < self@.returned.len(),
        ensures
            r == self@.returned[i as int],
    {
        self.returned[i]
    }
}

/// The shape that issuing and handing back issued slots keeps: handed-back
/// slots strictly ascending, all below `next_slot`, the highest of them not
/// right below it.
pub open spec fn slots_canonical(s: SlotsView) -> bool {
    &&& forall|i: int, j: int| 0 <= i < j < s.returned.len() ==> s.returned[i] < s.returned[j]
    &&& forall|i: int| 0 <= i < s.returned.len() ==> s.returned[i] + 1 < s.next_slot
}

/// Slot `x` is free: handed back, or never issued.
pub open spec fn is_free(s: SlotsView, x: Slot) -> bool {
    s.returned.contains(x) || x >= s.next_slot
}

proof fn lemma_collapse_free(n: nat, r: Seq<Slot>)
    requires
        forall|i: int, j: int| 0 <= i < j < r.len() ==> r[i] < r[j],
        forall|i: int| 0 <= i < r.len() ==> r[i] < n,
    ensures
        slots_canonical(collapse(n, r)),
        forall|y: Slot| #[trigger] is_free(collapse(n, r), y) <==> (r.contains(y) || y >= n),
    decreases r.len(),
{
    if n > 0 && r.len() > 0 && r.last() == n - 1 {
        let t = r.drop_last();
        lemma_collapse_free((n - 1) as nat, t);
        assert forall|y: Slot| #[trigger] is_free(collapse(n, r), y) <==> (r.contains(y) || y >= n) by {
            if r.contains(y) && y < n - 1 {
                let k = choose|k: int| 0 <= k < r.len() && r[k] == y;
                assert(t[k] == y);
            }
            if t.contains(y) {
                let k = choose|k: int| 0 <= k < t.len() && t[k] == y;
                assert(r[k] == y);
            }
            if y == n - 1 {
                assert(r[r.len() - 1] == y);
            }
        }
    } else {
        if r.len() > 0 {
            assert forall|i: int| 0 <= i < r.len() implies r[i] + 1 < n by {
                if i < r.len() - 1 {
                    assert(r[i] < r[r.len() - 1]);
                }
            }
        }
    }
}

proof fn lemma_insert_sorted_contents(s: Seq<Slot>, x: Slot)
    ensures
        forall|y: Slot| #[trigger] insert_sorted(s, x).contains(y) <==> (s.contains(y) || y == x),
        insert_sorted(s, x).len() == s.len() + 1,
    decreases s.len(),
{
    if s.len() > 0 && s.last() > x {
        let t = s.drop_last();
        lemma_insert_sorted_contents(t, x);
        let u = insert_sorted(t, x);
        assert forall|y: Slot| #[trigger] insert_sorted(s, x).contains(y) <==> (s.contains(y) || y
            == x) by {
            if s.contains(y) {
                let k = choose|k: int| 0 <= k < s.len() && s[k] == y;
                if k < t.len() {
                    assert(t[k] == y);
                } else {
                    assert(u.push(s.last())[u.len() as int] == y);
                }
            }
            if u.contains(y) {
                let k = choose|k: int| 0 <= k < u.len() && u[k] == y;
                assert(u.push(s.last())[k] == y);
            }
            if t.contains(y) {
                let k = choose|k: int| 0 <= k < t.len() && t[k] == y;
                assert(s[k] == y);
            }
            if insert_sorted(s, x).contains(y) {
                let k = choose|k: int| 0 <= k < u.len() + 1 && u.push(s.last())[k] == y;
                if k == u.len() {
                    assert(s[s.len() - 1] == y);
                } else {
                    assert(u[k] == y);
                }
            }
        }
    } else {
        assert forall|y: Slot| #[trigger] s.push(x).contains(y) <==> (s.contains(y) || y == x) by {
            if s.contains(y) {
                let k = choose|k: int| 0 <= k < s.len() && s[k] == y;
                assert(s.push(x)[k] == y);
            }
            if y == x {
                assert(s.push(x)[s.len() as int] == y);
            }
            if s.push(x).contains(y) {
                let k = choose|k: int| 0 <= k < s.len() + 1 && s.push(x)[k] == y;
                if k < s.len() {
                    assert(s[k] == y);
                }
            }
        }
    }
}

proof fn lemma_insert_sorted_strict(s: Seq<Slot>, x: Slot)
    requires
        forall|i: int, j: int| 0 <= i < j < s.len() ==> s[i] < s[j],
        !s.contains(x),
    ensures
        forall|i: int, j: int|
            0 <= i < j < insert_sorted(s, x).len() ==> insert_sorted(s, x)[i] < insert_sorted(
                s,
                x,
            )[j],
    decreases s.len(),
{
    lemma_insert_sorted_contents(s, x);
    if s.len() > 0 && s.last() > x {
        let t = s.drop_last();
        assert(!t.contains(x)) by {
            if t.contains(x) {
                let k = choose|k: int| 0 <= k < t.len() && t[k] == x;
                assert(s[k] == x);
            }
        }
        lemma_insert_sorted_strict(t, x);
        lemma_insert_sorted_contents(t, x);
        let u = insert_sorted(t, x);
        assert forall|i: int| 0 <= i < u.len() implies u[i] < s.last() by {
            assert(u.contains(u[i]));
            if u[i] != x {
                let k = choose|k: int| 0 <= k < t.len() && t[k] == u[i];
                assert(s[k] < s[s.len() - 1]);
            }
        }
    } else {
        assert forall|i: int| 0 <= i < s.len() implies s[i] < x by {
            assert(s.contains(s[i]));
            if i < s.len() - 1 {
                assert(s[i] < s[s.len() - 1]);
            }
        }
    }
}

/// Issuing takes the lowest free slot, and only it: from the shape that
/// correct use keeps, the issued slot is free, no free slot is lower, it is
/// in use afterwards, and every other slot keeps its state.
pub proof fn lemma_issue_lowest_free(s: SlotsView)
    requires
        slots_canonical(s),
        can_issue(s),
    ensures
        is_free(s, issued_of(s)),
        forall|y: Slot| #[trigger] is_free(s, y) ==> issued_of(s) <= y,
        !is_free(next_of(s), issued_of(s)),
        forall|y: Slot| y != issued_of(s) ==> (#[trigger] is_free(next_of(s), y) <==> is_free(s, y)),
        slots_canonical(next_of(s)),
{
    let r = s.returned;
    if r.len() > 0 {
        assert(r.contains(r[0]));
        let t = r.drop_first();
        assert forall|y: Slot| #[trigger] is_free(s, y) implies issued_of(s) <= y by {
            if r.contains(y) {
                let k = choose|k: int| 0 <= k < r.len() && r[k] == y;
                if k > 0 {
                    assert(r[0] < r[k]);
                }
            }
        }
        assert(!t.contains(r[0])) by {
            if t.contains(r[0]) {
                let k = choose|k: int| 0 <= k < t.len() && t[k] == r[0];
                assert(r[k + 1] == r[0]);
                assert(r[0] < r[k + 1]);
            }
        }
        assert forall|y: Slot| y != issued_of(s) implies (#[trigger] is_free(next_of(s), y)
            <==> is_free(s, y)) by {
            if r.contains(y) {
                let k = choose|k: int| 0 <= k < r.len() && r[k] == y;
                assert(t[k - 1] == y);
            }
            if t.contains(y) {
                let k = choose|k: int| 0 <= k < t.len() && t[k] == y;
                assert(r[k + 1] == y);
            }
        }
    }
}

/// Handing back a slot that is in use frees exactly that slot, and keeps
/// the shape that correct use keeps.
pub proof fn lemma_restore_frees(s: SlotsView, x: Slot)
    requires
        slots_canonical(s),
        !is_free(s, x),
    ensures
        is_free(restore_of(s, x), x),
        forall|y: Slot| y != x ==> (#[trigger] is_free(restore_of(s, x), y) <==> is_free(s, y)),
        slots_canonical(restore_of(s, x)),
{
    let r = s.returned;
    if s.next_slot > 0 && x == s.next_slot - 1 {
        lemma_collapse_free((s.next_slot - 1) as nat, r);
        assert(is_free(restore_of(s, x), x));
    } else {
        lemma_insert_sorted_contents(r, x);
        lemma_insert_sorted_strict(r, x);
        let u = insert_sorted(r, x);
        assert(u.contains(x));
        assert forall|i: int| 0 <= i < u.len() implies u[i] + 1 < s.next_slot by {
            assert(u.contains(u[i]));
            if u[i] != x {
                let k = choose|k: int| 0 <= k < r.len() && r[k] == u[i];
            }
        }
    }
}

/// `q` without its leading timestamps that are older than `cutoff`.
pub open spec fn trim(q: Seq<u64>, cutoff: u64) -> Seq<u64>
    decreases q.len(),
{
    if q.len() > 0 && q[0] < cutoff {
        trim(q.drop_first(), cutoff)
    } else {
        q
    }
}

/// Each slot's series trimmed at `cutoff`; slots left with none dropped.
pub open spec fn prune(s: Seq<(Slot, Seq<u64>)>, cutoff: u64) -> Seq<(Slot, Seq<u64>)>
    decreases s.len(),
{
    if s.len() == 0 {
        s
    } else {
        let rest = prune(s.drop_last(), cutoff);
        let t = trim(s.last().1, cutoff);
        if t.len() == 0 {
            rest
        } else {
            rest.push((s.last().0, t))
        }
    }
}

/// The most timestamps at or after `cutoff` that any one slot has.
pub open spec fn max_recent(s: Seq<(Slot, Seq<u64>)>, cutoff: u64) -> nat
    decreases s.len(),
{
    if s.len() == 0 {
        0
    } else {
        let rest = max_recent(s.drop_last(), cutoff);
        let n = trim(s.last().1, cutoff).len();
        if n > rest {
            n
        } else {
            rest
        }
    }
}

/// The oldest timestamp still inside a window that ends at `now`.
pub open spec fn cutoff_of(now: u64, window: u64) -> u64 {
    if now >= window {
        (now - window) as u64
    } else {
        0
    }
}

/// `i` is the first entry of `s` for `slot`.
pub open spec fn is_first(s: Seq<(Slot, Seq<u64>)>, slot: Slot, i: int) -> bool {
    0 <= i < s.len() && s[i].0 == slot && forall|j: int| 0 <= j < i ==> (#[trigger] s[j]).0 != slot
}

/// `now` appended to the series of `slot`, which is started if missing.
pub open spec fn record(s: Seq<(Slot, Seq<u64>)>, slot: Slot, now: u64) -> Seq<(Slot, Seq<u64>)> {
    if exists|i: int| is_first(s, slot, i) {
        let i = choose|i: int| is_first(s, slot, i);
        s.update(i, (slot, s[i].1.push(now)))
    } else {
        s.push((slot, seq![now]))
    }
}

/// A new warning is allowed at `now`: none was given yet, or the last one
/// is more than `quiet` before `now`.
pub open spec fn quiet_over(last: Option<u64>, now: u64, quiet: u64) -> bool {
    match last {
        None => true,
        Some(l) => now > l && now - l > quiet,
    }
}

/// No slot has two series.
pub open spec fn slots_unique(s: Seq<(Slot, Seq<u64>)>) -> bool {
    forall|i: int, j: int| 0 <= i < j < s.len() ==> s[i].0 != s[j].0
}

proof fn lemma_prune_unique(s: Seq<(Slot, Seq<u64>)>, cutoff: u64)
    requires
        slots_unique(s),
    ensures
        slots_unique(prune(s, cutoff)),
        forall|k: int|
            0 <= k < prune(s, cutoff).len() ==> exists|i: int|
                0 <= i < s.len() && s[i].0 == (#[trigger] prune(s, cutoff)[k]).0,
    decreases s.len(),
{
    if s.len() > 0 {
        let t = s.drop_last();
        lemma_prune_unique(t, cutoff);
        let p = prune(t, cutoff);
        assert forall|k: int| 0 <= k < p.len() implies (#[trigger] p[k]).0 != s.last().0 by {
            let i = choose|i: int| 0 <= i < t.len() && t[i].0 == p[k].0;
            assert(s[i] == t[i]);
        }
        let q = prune(s, cutoff);
        assert forall|k: int| 0 <= k < q.len() implies exists|i: int|
            0 <= i < s.len() && s[i].0 == (#[trigger] q[k]).0 by {
            if k < p.len() {
                let i = choose|i: int| 0 <= i < t.len() && t[i].0 == p[k].0;
                assert(s[i] == t[i]);
            } else {
                assert(s[s.len() - 1].0 == q[k].0);
            }
        }
    }
}

proof fn lemma_record_unique(s: Seq<(Slot, Seq<u64>)>, slot: Slot, now: u64)
    requires
        slots_unique(s),
    ensures
        slots_unique(record(s, slot, now)),
{
    if exists|i: int| is_first(s, slot, i) {
        let i = choose|i: int| is_first(s, slot, i);
        assert(record(s, slot, now) =~= s.update(i, (slot, s[i].1.push(now))));
    } else {
        assert forall|i: int| 0 <= i < s.len() implies s[i].0 != slot by {
            if s[i].0 == slot {
                assert(is_first(s, slot, i));
            }
        }
    }
}

/// The tracker: its slots, each slot's connection times in the order they
/// came, the time of the last warning, and its settings.
pub struct ActiveSendersView {
    pub slots: SlotsView,
    pub series: Seq<(Slot, Seq<u64>)>,
    pub last_warning: Option<u64>,
    pub reconnect_warn_window: u64,
    pub reconnect_warn_threshold: usize,
    pub quiet_window: u64,
}

/// The timestamps at which connections on one slot were established.
pub struct SlotSeries {
    slot: Slot,
    established: VecDeque<u64>,
}

/// The slots and times that series hold.
pub open spec fn series_view(s: Seq<SlotSeries>) -> Seq<(Slot, Seq<u64>)> {
    s.map_values(|e: SlotSeries| e@)
}

impl View for SlotSeries {
    type V = (Slot, Seq<u64>);

    closed spec fn view(&self) -> (Slot, Seq<u64>) {
        (self.slot, self.established@)
    }
}

/// Tracks open connections by slot and warns when one slot is re-established
/// `reconnect_warn_threshold` times within `reconnect_warn_window`, at most
/// once per `quiet_window`.
pub struct ActiveSenders {
    slots: Slots,
    series: Vec<SlotSeries>,
    last_warning: Option<u64>,
    reconnect_warn_window: u64,
    reconnect_warn_threshold: usize,
    quiet_window: u64,
}

impl View for ActiveSenders {
    type V = ActiveSendersView;

    closed spec fn view(&self) -> ActiveSendersView {
        ActiveSendersView {
            slots: self.slots@,
            series: series_view(self.series@),
            last_warning: self.last_warning,
            reconnect_warn_window: self.reconnect_warn_window,
            reconnect_warn_threshold: self.reconnect_warn_threshold,
            quiet_window: self.quiet_window,
        }
    }
}

proof fn lemma_trim_step(q: Seq<u64>, cutoff: u64)
    requires
        q.len() > 0,
        q[0] < cutoff,
    ensures
        trim(q, cutoff) == trim(q.subrange(1, q.len() as int), cutoff),
{
    assert(q.drop_first() =~= q.subrange(1, q.len() as int));
}

impl ActiveSenders {
    /// The handed-back slots are in ascending order, and each slot has one
    /// series at most.
    pub open spec fn wf(&self) -> bool {
        sorted(self@.slots.returned) && slots_unique(self@.series)
    }

    /// A tracker with no connection yet.
    pub fn new(reconnect_warn_window: u64, reconnect_warn_threshold: usize, quiet_window: u64) -> (a:
        Self)
        ensures
            a.wf(),
            a@.slots == (SlotsView { next_slot: 0, returned: Seq::empty() }),
            a@.series == Seq::<(Slot, Seq<u64>)>::empty(),
            a@.last_warning == None::<u64>,
            a@.reconnect_warn_window == reconnect_warn_window,
            a@.reconnect_warn_threshold == reconnect_warn_threshold,
            a@.quiet_window == quiet_window,
    {
        let a = ActiveSenders {
            slots: Slots::new(),
            series: Vec::new(),
            last_warning: None,
            reconnect_warn_window,
            reconnect_warn_threshold,
            quiet_window,
        };
        assert(a@.series =~= Seq::<(Slot, Seq<u64>)>::empty());
        a
    }

    /// Drops every timestamp older than the window that ends at `now`, and
    /// every slot left with none; returns the most timestamps that one slot
    /// keeps.
    pub fn count_recent_reconnections(&mut self, now: u64) -> (r: usize)
        requires
            old(self).wf(),
        ensures
            final(self).wf(),
            r == max_recent(old(self)@.series, cutoff_of(now, old(self)@.reconnect_warn_window)),
            final(self)@ == (ActiveSendersView {
                series: prune(old(self)@.series, cutoff_of(now, old(self)@.reconnect_warn_window)),
                ..old(self)@
            }),
    {
        let cutoff = if now >= self.reconnect_warn_window {
            now - self.reconnect_warn_window
        } else {
            0
        };
        let mut pending: Vec<SlotSeries> = Vec::new();
        std::mem::swap(&mut pending, &mut self.series);
        let ghost orig = series_view(pending@);
        let n = pending.len();
        let mut max_count: usize = 0;
        let mut i: usize = 0;
        assert(series_view(self.series@) =~= prune(orig.take(0), cutoff));
        while i < n
            invariant
                0 <= i <= n,
                n == orig.len(),
                series_view(pending@) == orig.subrange(i as int, n as int),
                series_view(self.series@) == prune(orig.take(i as int), cutoff),
                max_count == max_recent(orig.take(i as int), cutoff),
                self.slots == old(self).slots,
                self.last_warning == old(self).last_warning,
                self.reconnect_warn_window == old(self).reconnect_warn_window,
                self.reconnect_warn_threshold == old(self).reconnect_warn_threshold,
                self.quiet_window == old(self).quiet_window,
            decreases n - i,
        {
            assert(pending@.len() > 0) by {
                assert(series_view(pending@).len() == n - i);
            }
            let ghost pv = pending@;
            assert(series_view(pv).len() == pv.len());
            let mut e = pending.remove(0);
            assert(pending@ == pv.remove(0));
            assert(series_view(pending@).len() == pending@.len());
            assert(e@ == orig[i as int]) by {
                assert(series_view(pv)[0] == orig.subrange(i as int, n as int)[0]);
            }
            assert(series_view(pending@) =~= orig.subrange(i + 1, n as int)) by {
                assert forall|j: int| 0 <= j < pending@.len() implies #[trigger] series_view(
                    pending@,
                )[j] == orig.subrange(i + 1, n as int)[j] by {
                    assert(pending@[j] == pv[j + 1]);
                    assert(series_view(pending@)[j] == pending@[j]@);
                    assert(series_view(pv)[j + 1] == pv[j + 1]@);
                    assert(series_view(pv)[j + 1] == orig.subrange(i as int, n as int)[j + 1]);
                }
            }
            let ghost q0 = e.established@;
            while e.established.len() > 0 && e.established[0] < cutoff
                invariant
                    0 <= i < n,
                    n == orig.len(),
                    trim(q0, cutoff) == trim(e.established@, cutoff),
                    e.slot == orig[i as int].0,
                decreases e.established@.len(),
            {
                proof {
                    lemma_trim_step(e.established@, cutoff);
                }
                e.established.pop_front();
            }
            let count = e.established.len();
            let ghost pre = orig.take(i + 1);
            assert(pre.drop_last() =~= orig.take(i as int));
            assert(trim(q0, cutoff) == e.established@);
            if count > 0 {
                if count > max_count {
                    max_count = count;
                }
                self.series.push(e);
                assert(series_view(self.series@) =~= prune(pre, cutoff));
            }
            i += 1;
        }
        assert(orig.take(n as int) =~= orig);
        proof {
            lemma_prune_unique(orig, cutoff);
        }
        max_count
    }

    /// Records a connection established at `now`: issues its slot, records
    /// the time, prunes old times, and warns when one slot reaches the
    /// threshold of recent connections and no warning was given within the
    /// quiet window. Returns the slot and whether to warn.
    pub fn track_established(&mut self, now: u64) -> (r: (Slot, bool))
        requires
            old(self).wf(),
            can_issue(old(self)@.slots),
        ensures
            final(self).wf(),
            ({
                let a = old(self)@;
                let slot = issued_of(a.slots);
                let rec = record(a.series, slot, now);
                let cutoff = cutoff_of(now, a.reconnect_warn_window);
                let warn = max_recent(rec, cutoff) >= a.reconnect_warn_threshold && quiet_over(
                    a.last_warning,
                    now,
                    a.quiet_window,
                );
                &&& r == (slot, warn)
                &&& final(self)@ == ActiveSendersView {
                    slots: next_of(a.slots),
                    series: prune(rec, cutoff),
                    last_warning: if warn {
                        Some(now)
                    } else {
                        a.last_warning
                    },
                    ..a
                }
            }),
    {
        let slot_id = self.slots.next();
        let ghost s = series_view(self.series@);
        let n = self.series.len();
        let mut i: usize = 0;
        loop
            invariant
                0 <= i <= n,
                n == s.len(),
                series_view(self.series@) == s,
                forall|j: int| 0 <= j < i ==> (#[trigger] s[j]).0 != slot_id,
            ensures
                0 <= i <= n,
                i < n ==> s[i as int].0 == slot_id,
                forall|j: int| 0 <= j < i ==> (#[trigger] s[j]).0 != slot_id,
            decreases n - i,
        {
            if i == n {
                break;
            }
            assert(s[i as int] == self.series@[i as int]@);
            if self.series[i].slot == slot_id {
                break;
            }
            i += 1;
        }
        if i < n {
            assert(is_first(s, slot_id, i as int));
            let mut e = self.series.remove(i);
            assert(e@ == s[i as int]);
            e.established.push_back(now);
            self.series.insert(i, e);
            proof {
                let c = choose|c: int| is_first(s, slot_id, c);
                assert(c == i);
            }
            assert(series_view(self.series@) =~= record(s, slot_id, now));
        } else {
            let mut established = VecDeque::new();
            established.push_back(now);
            self.series.push(SlotSeries { slot: slot_id, established });
            assert(series_view(self.series@) =~= record(s, slot_id, now));
        }
        proof {
            lemma_record_unique(s, slot_id, now);
        }
        let max_recent = self.count_recent_reconnections(now);
        let mut warning = false;
        if max_recent >= self.reconnect_warn_threshold {
            let quiet = match self.last_warning {
                None => true,
                Some(last) => now > last && now - last > self.quiet_window,
            };
            if quiet {
                warning = true;
                self.last_warning = Some(now);
            }
        }
        (slot_id, warning)
    }

    /// Hands the slot of a closed connection back.
    pub fn track_closed(&mut self, slot_id: Slot)
        requires
            old(self).wf(),
        ensures
            final(self).wf(),
            final(self)@ == (ActiveSendersView {
                slots: restore_of(old(self)@.slots, slot_id),
                ..old(self)@
            }),
    {
        self.slots.restore(slot_id);
    }

    /// The window in which recent connections are counted.
    pub fn reconnect_warn_window(&self) -> (r: u64)
        ensures
            r == self@.reconnect_warn_window,
    {
        self.reconnect_warn_window
    }

    /// How long warnings stay quiet after one is given.
    pub fn quiet_window(&self) -> (r: u64)
        ensures
            r == self@.quiet_window,
    {
        self.quiet_window
    }

    /// The slot numbers.
    pub fn slots(&self) -> (r: &Slots)
        ensures
            r@ == self@.slots,
    {
        &self.slots
    }
}

} // verus!
