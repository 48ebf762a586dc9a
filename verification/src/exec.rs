//! The execution engine: applies Committed instances to the key/value store
//! in a dependency-respecting, deterministic order, exactly once per
//! instance, even though instances commit in arbitrary wall-clock order
//! across replicas.
//!
//! Committed, not-yet-applied instances are applied in ascending
//! `(seq, replica, slot)` order, an instance only once every dependency of
//! it is applied — except the dependencies that lie in the same dependency
//! cycle (strongly connected component of pending instances), which go
//! through with it as one group, ordered among themselves by
//! `(seq, replica, slot)`. An instance whose dependency is missing or not
//! yet committed is held back, along with everything that depends on it,
//! and goes through on a later run once the dependency is learned. The
//! applied order is a function of the committed set alone, so replicas
//! that share a committed set apply the same store state.

use vstd::prelude::*;
use vstd::pervasive::VecAdditionalExecFns;

use crate::log::Commands;
use crate::log::lemma_entries_map;
use crate::log::lemma_entries_map_dom_size;
use crate::types::CommandState;
use crate::types::InstanceModel;
use crate::types::InstanceRef;

verus! {

/// The keys of a store entry list are pairwise distinct (as strings).
pub open spec fn store_keys_unique(s: Seq<(String, i32)>) -> bool {
    forall|i: int, j: int| 0 <= i < j < s.len() ==> (#[trigger] s[i]).0@ != (#[trigger] s[j]).0@
}

/// The key/value map that a store entry list stands for.
pub open spec fn store_map(s: Seq<(String, i32)>) -> Map<Seq<char>, int>
    decreases s.len(),
{
    if s.len() == 0 {
        Map::empty()
    } else {
        store_map(s.drop_last()).insert(s.last().0@, s.last().1 as int)
    }
}

/// What `store_map` holds, entry by entry.
pub proof fn lemma_store_map(s: Seq<(String, i32)>)
    ensures
        forall|k: Seq<char>| #[trigger] store_map(s).dom().contains(k)
            <==> exists|i: int| 0 <= i < s.len() && (#[trigger] s[i]).0@ == k,
        store_keys_unique(s) ==> forall|i: int|
            0 <= i < s.len() ==> store_map(s)[(#[trigger] s[i]).0@] == s[i].1 as int,
    decreases s.len(),
{
    if s.len() > 0 {
        let sd = s.drop_last();
        lemma_store_map(sd);
        assert forall|k: Seq<char>| #[trigger] store_map(s).dom().contains(k)
            implies exists|i: int| 0 <= i < s.len() && (#[trigger] s[i]).0@ == k by {
            if k == s.last().0@ {
                assert(s[s.len() - 1].0@ == k);
            } else {
                assert(store_map(sd).dom().contains(k));
                let i = choose|i: int| 0 <= i < sd.len() && (#[trigger] sd[i]).0@ == k;
                assert(sd[i] == s[i]);
                assert(s[i].0@ == k);
            }
        }
        assert forall|k: Seq<char>| (exists|i: int| 0 <= i < s.len() && (#[trigger] s[i]).0@ == k)
            implies #[trigger] store_map(s).dom().contains(k) by {
            let i = choose|i: int| 0 <= i < s.len() && (#[trigger] s[i]).0@ == k;
            if i < s.len() - 1 {
                assert(sd[i] == s[i]);
                assert(store_map(sd).dom().contains(k));
            }
        }
        if store_keys_unique(s) {
            assert(store_keys_unique(sd)) by {
                assert(forall|i: int| 0 <= i < sd.len() ==> #[trigger] sd[i] == s[i]);
            }
            assert forall|i: int| 0 <= i < s.len()
                implies store_map(s)[(#[trigger] s[i]).0@] == s[i].1 as int by {
                if i < s.len() - 1 {
                    assert(s[i].0@ != s[s.len() - 1].0@);
                    assert(sd[i] == s[i]);
                    assert(store_map(sd)[sd[i].0@] == sd[i].1 as int);
                }
            }
        }
    }
}

/// The strict application order among instances: ascending sequence number,
/// ties broken by leading replica, then slot. A total order on distinct
/// slots, identical at every replica that knows the same committed set.
pub open spec fn exec_before(
    m: Map<InstanceRef, InstanceModel>,
    a: InstanceRef,
    b: InstanceRef,
) -> bool {
    ||| m[a].seq < m[b].seq
    ||| (m[a].seq == m[b].seq && a.replica.0 < b.replica.0)
    ||| (m[a].seq == m[b].seq && a.replica.0 == b.replica.0 && a.slot < b.slot)
}

/// Committed in the log and not yet applied to the store.
pub open spec fn pending(
    m: Map<InstanceRef, InstanceModel>,
    applied: Set<InstanceRef>,
    r: InstanceRef,
) -> bool {
    m.dom().contains(r) && m[r].state is Committed && !applied.contains(r)
}

/// The committed, not-yet-applied instances.
pub open spec fn pending_set(
    m: Map<InstanceRef, InstanceModel>,
    applied: Set<InstanceRef>,
) -> Set<InstanceRef> {
    Set::new(|r: InstanceRef| pending(m, applied, r))
}

/// `b` is reachable from `a` in at most `n` dependency steps, every step
/// landing inside `pend`.
pub open spec fn reaches_in(
    m: Map<InstanceRef, InstanceModel>,
    pend: Set<InstanceRef>,
    a: InstanceRef,
    b: InstanceRef,
    n: nat,
) -> bool
    decreases n,
{
    a == b || (n > 0 && exists|d: InstanceRef| #[trigger] m[a].deps.contains(d)
        && pend.contains(d) && reaches_in(m, pend, d, b, (n - 1) as nat))
}

/// `b` is reachable from `a` through dependency edges within `pend`. Two
/// pending instances that reach each other lie in one strongly connected
/// component — one dependency cycle.
pub open spec fn reaches(
    m: Map<InstanceRef, InstanceModel>,
    pend: Set<InstanceRef>,
    a: InstanceRef,
    b: InstanceRef,
) -> bool {
    exists|n: nat| reaches_in(m, pend, a, b, n)
}

/// A dependency `d` of `r` does not hold `r` back, given the batch `bset`
/// being applied: `d` was applied on an earlier run, or is applied earlier
/// in this batch, or is itself pending with a dependency path leading back
/// to `r` — then `d` and `r` lie in one cycle of pending instances, whose
/// members go through as one group, in `(seq, replica, slot)` order.
pub open spec fn dep_cleared(
    m: Map<InstanceRef, InstanceModel>,
    applied: Set<InstanceRef>,
    bset: Set<InstanceRef>,
    r: InstanceRef,
    d: InstanceRef,
) -> bool {
    ||| applied.contains(d)
    ||| (bset.contains(d) && exec_before(m, d, r))
    ||| (pending(m, applied, d) && reaches(m, pending_set(m, applied), d, r))
}

/// No dependency of `r` holds it back. An instance with a missing,
/// uncommitted or held-back dependency is itself held back, and so,
/// transitively, is everything that depends on it.
pub open spec fn deps_cleared(
    m: Map<InstanceRef, InstanceModel>,
    applied: Set<InstanceRef>,
    bset: Set<InstanceRef>,
    r: InstanceRef,
) -> bool {
    forall|d: InstanceRef| #[trigger] m[r].deps.contains(d) ==> dep_cleared(m, applied, bset, r, d)
}

/// The batch one execution run applies, given the log `m` and the set
/// `applied` of instances applied on earlier runs: the pending instances
/// whose dependencies are all cleared, in ascending application order.
/// These clauses determine the batch uniquely from `m` and `applied`.
pub open spec fn valid_batch(
    m: Map<InstanceRef, InstanceModel>,
    applied: Set<InstanceRef>,
    b: Seq<InstanceRef>,
) -> bool {
    &&& forall|x: int, y: int| 0 <= x < y < b.len() ==> exec_before(m, #[trigger] b[x], #[trigger] b[y])
    &&& forall|x: int| 0 <= x < b.len() ==> pending(m, applied, #[trigger] b[x])
    &&& forall|r: InstanceRef| pending(m, applied, r) ==> (#[trigger] b.contains(r)
        <==> deps_cleared(m, applied, b.to_set(), r))
}

/// The store after applying the instances of `order`, left to right: each
/// writes its command's value under its command's key.
pub open spec fn apply_seq(
    m: Map<InstanceRef, InstanceModel>,
    st: Map<Seq<char>, int>,
    order: Seq<InstanceRef>,
) -> Map<Seq<char>, int>
    decreases order.len(),
{
    if order.len() == 0 {
        st
    } else {
        apply_seq(m, st, order.drop_last()).insert(
            m[order.last()].command.key,
            m[order.last()].command.value,
        )
    }
}

/// Sort key of a pending instance: its sequence number with its slot.
pub open spec fn key_lt_spec(a: (usize, InstanceRef), b: (usize, InstanceRef)) -> bool {
    ||| a.0 < b.0
    ||| (a.0 == b.0 && a.1.replica.0 < b.1.replica.0)
    ||| (a.0 == b.0 && a.1.replica.0 == b.1.replica.0 && a.1.slot < b.1.slot)
}

/// Compares two sort keys.
fn key_lt(a: (usize, InstanceRef), b: (usize, InstanceRef)) -> (r: bool)
    ensures
        r == key_lt_spec(a, b),
{
    a.0 < b.0 || (a.0 == b.0 && (a.1.replica.0 < b.1.replica.0 || (a.1.replica.0 == b.1.replica.0
        && a.1.slot < b.1.slot)))
}

/// Insertion sort of the candidate list by `(seq, replica, slot)`.
#[verifier::loop_isolation(false)]
fn sort_by_key(v: Vec<(usize, InstanceRef)>) -> (out: Vec<(usize, InstanceRef)>)
    requires
        forall|x: int, y: int| 0 <= x < y < v@.len() ==> (#[trigger] v@[x]).1 != (#[trigger] v@[y]).1,
    ensures
        out@.len() == v@.len(),
        forall|x: int, y: int| 0 <= x < y < out@.len()
            ==> key_lt_spec(#[trigger] out@[x], #[trigger] out@[y]),
        forall|q: (usize, InstanceRef)| #[trigger] out@.contains(q) <==> v@.contains(q),
{
    let n = v.len();
    let mut out: Vec<(usize, InstanceRef)> = Vec::new();
    let mut i: usize = 0;
    while i < n
        invariant
            out@.len() == i,
            0 <= i <= n,
            forall|x: int, y: int| 0 <= x < y < out@.len()
                ==> key_lt_spec(#[trigger] out@[x], #[trigger] out@[y]),
            forall|q: (usize, InstanceRef)| #[trigger] out@.contains(q) <==> v@.take(i as int).contains(q),
        decreases n - i,
    {
        let x = v[i];
        proof {
            // the element being inserted is not yet present
            if out@.contains(x) {
                let a = choose|a: int| 0 <= a < out@.len() && out@[a] == x;
                let b = choose|b: int| 0 <= b < i && v@.take(i as int)[b] == x;
                assert(v@[b] == x);
                assert(v@[b].1 == v@[i as int].1);
                assert(false);
            }
        }
        let mut p: usize = 0;
        while p < out.len()
            invariant
                0 <= p <= out@.len(),
                forall|j: int| 0 <= j < p ==> key_lt_spec(#[trigger] out@[j], x),
            decreases out@.len() - p,
        {
            if !key_lt(out[p], x) {
                break;
            }
            p = p + 1;
        }
        proof {
            if p < out@.len() {
                // out[p] is not below x and differs from it, so x is below out[p]
                assert(out@.contains(out@[p as int]));
                assert(v@.take(i as int).contains(out@[p as int]));
                let b = choose|b: int| 0 <= b < i && v@.take(i as int)[b] == out@[p as int];
                assert(v@[b] == out@[p as int]);
                assert(v@[b].1 != v@[i as int].1);
                assert(key_lt_spec(x, out@[p as int]));
            }
        }
        let ghost out_old = out@;
        out.insert(p, x);
        proof {
            assert(out@ == out_old.insert(p as int, x));
            assert(forall|j: int| 0 <= j < p ==> out@[j] == out_old[j]);
            assert(out@[p as int] == x);
            assert(forall|j: int| p < j < out@.len() ==> out@[j] == out_old[j - 1]);
            assert forall|a: int, b: int| 0 <= a < b < out@.len()
                implies key_lt_spec(#[trigger] out@[a], #[trigger] out@[b]) by {
                if b < p {
                } else if a < p && b == p {
                    assert(key_lt_spec(out_old[a], x));
                } else if a < p && b > p {
                    assert(key_lt_spec(out_old[a], out_old[b - 1]));
                } else if a == p && b > p {
                    assert(key_lt_spec(x, out_old[p as int]));
                    if b - 1 > p {
                        assert(key_lt_spec(out_old[p as int], out_old[b - 1]));
                    }
                } else {
                    assert(key_lt_spec(out_old[a - 1], out_old[b - 1]));
                }
            }
            assert forall|q: (usize, InstanceRef)| #[trigger] out@.contains(q)
                implies v@.take(i + 1).contains(q) by {
                let j = choose|j: int| 0 <= j < out@.len() && out@[j] == q;
                if j == p {
                    assert(v@.take(i + 1)[i as int] == q);
                } else {
                    assert(out_old.contains(q));
                    let b = choose|b: int| 0 <= b < out_old.len() && out_old[b] == q;
                    assert(v@.take(i as int).contains(q));
                    let c = choose|c: int| 0 <= c < i && v@.take(i as int)[c] == q;
                    assert(v@.take(i + 1)[c] == q);
                }
            }
            assert forall|q: (usize, InstanceRef)| v@.take(i + 1).contains(q)
                implies #[trigger] out@.contains(q) by {
                let c = choose|c: int| 0 <= c < i + 1 && #[trigger] v@.take(i + 1)[c] == q;
                if c == i {
                    assert(out@[p as int] == q);
                } else {
                    assert(v@.take(i as int)[c] == q);
                    assert(out_old.contains(q));
                    let b = choose|b: int| 0 <= b < out_old.len() && out_old[b] == q;
                    if b < p {
                        assert(out@[b] == q);
                    } else {
                        assert(out@[b + 1] == q);
                    }
                }
            }
        }
        i = i + 1;
    }
    proof {
        assert(v@.take(n as int) =~= v@);
    }
    out
}

/// A reachability chain extends by one dependency edge at its end.
proof fn lemma_reaches_extend(
    m: Map<InstanceRef, InstanceModel>,
    pend: Set<InstanceRef>,
    a: InstanceRef,
    b: InstanceRef,
    c: InstanceRef,
    n: nat,
)
    requires
        reaches_in(m, pend, a, b, n),
        m[b].deps.contains(c),
        pend.contains(c),
    ensures
        reaches_in(m, pend, a, c, n + 1),
    decreases n,
{
    if a == b {
        assert(reaches_in(m, pend, c, c, n as nat));
    } else {
        let d = choose|d: InstanceRef| #[trigger] m[a].deps.contains(d) && pend.contains(d)
            && reaches_in(m, pend, d, b, (n - 1) as nat);
        lemma_reaches_extend(m, pend, d, b, c, (n - 1) as nat);
    }
}

/// A set of slots closed under pending dependency edges contains everything
/// reachable from any of its members.
proof fn lemma_reaches_closed(
    m: Map<InstanceRef, InstanceModel>,
    pend: Set<InstanceRef>,
    visited: Set<InstanceRef>,
    a: InstanceRef,
    b: InstanceRef,
    n: nat,
)
    requires
        forall|x: InstanceRef, d: InstanceRef| #[trigger] visited.contains(x)
            && #[trigger] m[x].deps.contains(d) && pend.contains(d) ==> visited.contains(d),
        visited.contains(a),
        reaches_in(m, pend, a, b, n),
    ensures
        visited.contains(b),
    decreases n,
{
    if a != b {
        let d = choose|d: InstanceRef| #[trigger] m[a].deps.contains(d) && pend.contains(d)
            && reaches_in(m, pend, d, b, (n - 1) as nat);
        lemma_reaches_closed(m, pend, visited, d, b, (n - 1) as nat);
    }
}

/// What a list contains after a push: its old contents and the new element.
proof fn lemma_push_contains<A>(s: Seq<A>, x: A)
    ensures
        forall|q: A| #[trigger] s.push(x).contains(q) <==> s.contains(q) || q == x,
{
    assert forall|q: A| #[trigger] s.push(x).contains(q) implies s.contains(q) || q == x by {
        let j = choose|j: int| 0 <= j < s.push(x).len() && s.push(x)[j] == q;
        if j < s.len() {
            assert(s[j] == q);
        }
    }
    assert forall|q: A| s.contains(q) || q == x implies #[trigger] s.push(x).contains(q) by {
        if s.contains(q) {
            let j = choose|j: int| 0 <= j < s.len() && s[j] == q;
            assert(s.push(x)[j] == q);
        } else {
            assert(s.push(x)[s.len() as int] == q);
        }
    }
}

/// The key/value store and the record of which instances have been applied
/// to it. Applying is an at-most-once action per instance slot.
pub struct ExecutionEngine {
    pub store: Vec<(String, i32)>,
    pub applied: Vec<InstanceRef>,
}

impl ExecutionEngine {
    /// The store the engine has built up.
    pub open spec fn store_view(&self) -> Map<Seq<char>, int> {
        store_map(self.store@)
    }

    /// The instances applied so far.
    pub open spec fn applied_view(&self) -> Set<InstanceRef> {
        self.applied@.to_set()
    }

    /// One store entry per key; one applied record per slot.
    pub open spec fn wf(&self) -> bool {
        store_keys_unique(self.store@) && self.applied@.no_duplicates()
    }

    /// A fresh engine: empty store, nothing applied.
    pub fn new() -> (e: ExecutionEngine)
        ensures
            e.wf(),
            e.store_view() == Map::<Seq<char>, int>::empty(),
            e.applied_view() == Set::<InstanceRef>::empty(),
    {
        let e = ExecutionEngine { store: Vec::new(), applied: Vec::new() };
        proof {
            assert(e.applied@.to_set() =~= Set::<InstanceRef>::empty());
        }
        e
    }

    /// The value the store holds for `key`, if any.
    pub fn get(&self, key: &String) -> (res: Option<i32>)
        requires
            self.wf(),
        ensures
            match res {
                Some(v) => self.store_view().dom().contains(key@)
                    && self.store_view()[key@] == v as int,
                None => !self.store_view().dom().contains(key@),
            },
    {
        proof {
            lemma_store_map(self.store@);
        }
        let n = self.store.len();
        let mut i: usize = 0;
        while i < n
            invariant
                self.wf(),
                n == self.store@.len(),
                0 <= i <= n,
                forall|j: int| 0 <= j < i ==> (#[trigger] self.store@[j]).0@ != key@,
            decreases n - i,
        {
            if self.store[i].0 == *key {
                proof {
                    lemma_store_map(self.store@);
                    assert(self.store@[i as int].0@ == key@);
                }
                return Some(self.store[i].1);
            }
            i = i + 1;
        }
        proof {
            lemma_store_map(self.store@);
        }
        None
    }

    /// Whether the instance at `r` has already been applied.
    pub fn is_applied(&self, r: InstanceRef) -> (b: bool)
        ensures
            b == self.applied_view().contains(r),
    {
        let n = self.applied.len();
        let mut i: usize = 0;
        while i < n
            invariant
                n == self.applied@.len(),
                0 <= i <= n,
                forall|j: int| 0 <= j < i ==> self.applied@[j] != r,
            decreases n - i,
        {
            if self.applied[i] == r {
                proof {
                    assert(self.applied@.contains(r));
                }
                return true;
            }
            i = i + 1;
        }
        false
    }

    /// Whether `target` is reachable from `from` through dependency edges
    /// among the pending (committed, not-yet-applied) instances: the search
    /// that detects dependency cycles.
    #[verifier::loop_isolation(false)]
    #[verifier::rlimit(100)]
    fn reaches_pending(&self, log: &Commands, from: InstanceRef, target: InstanceRef) -> (b: bool)
        requires
            log.wf(),
            self.wf(),
            pending(log@, self.applied_view(), from),
        ensures
            b == reaches(log@, pending_set(log@, self.applied_view()), from, target),
    {
        let ghost m = log@;
        let ghost ap = self.applied_view();
        let ghost pend = pending_set(m, ap);
        proof {
            lemma_entries_map_dom_size(log.0@);
        }
        if from == target {
            proof {
                assert(reaches_in(m, pend, from, target, 0));
            }
            return true;
        }
        let bound = log.0.len();
        let mut visited: Vec<InstanceRef> = Vec::new();
        let mut work: Vec<InstanceRef> = Vec::new();
        visited.push(from);
        work.push(from);
        proof {
            assert(pend.contains(from));
            assert(reaches_in(m, pend, from, from, 0));
            assert(reaches(m, pend, from, from));
            assert(visited@ =~= seq![from]);
            assert(work@ =~= seq![from]);
            assert(m.dom().remove(from).len() == m.dom().len() - 1);
        }
        while work.len() > 0
            invariant
                visited@.len() >= 1,
                visited@[0] == from,
                visited@.no_duplicates(),
                forall|x: int| 0 <= x < visited@.len() ==> pend.contains(#[trigger] visited@[x])
                    && reaches(m, pend, from, visited@[x]),
                forall|w: int| 0 <= w < work@.len() ==> visited@.contains(#[trigger] work@[w]),
                !visited@.contains(target),
                forall|x: int| 0 <= x < visited@.len() ==> work@.contains(#[trigger] visited@[x])
                    || (forall|d: InstanceRef| m[visited@[x]].deps.contains(d)
                        && pend.contains(d) ==> #[trigger] visited@.contains(d)),
                visited@.len() <= bound,
            decreases work@.len() + (bound + 1 - visited@.len()),
        {
            let ghost work_pre = work@;
            let ghost visited_pre = visited@;
            let cur = match work.pop() {
                Some(c) => c,
                None => {
                    return vstd::pervasive::unreached();
                }
            };
            let ghost work_popped = work@;
            proof {
                assert(visited@.contains(cur)) by {
                    assert(work_pre[work_pre.len() - 1] == cur);
                    assert(work_pre.contains(cur));
                }
                let xc = choose|x: int| 0 <= x < visited@.len() && visited@[x] == cur;
                assert(pend.contains(cur) && reaches(m, pend, from, cur));
                // the popped slot may still be listed in the worklist, or its
                // dependencies are about to be visited
                assert forall|x: int| 0 <= x < visited@.len()
                    implies work@.contains(#[trigger] visited@[x]) || visited@[x] == cur
                        || (forall|d: InstanceRef| m[visited@[x]].deps.contains(d)
                            && pend.contains(d) ==> #[trigger] visited@.contains(d)) by {
                    if work_pre.contains(visited@[x]) {
                        let w = choose|w: int| 0 <= w < work_pre.len() && work_pre[w]
                            == visited@[x];
                        if w < work@.len() {
                            assert(work@[w] == visited@[x]);
                        } else {
                            assert(visited@[x] == cur);
                        }
                    }
                }
            }
            let inst = match log.get(cur) {
                Ok(inst) => inst,
                Err(_) => {
                    proof {
                        assert(pend.contains(cur));
                    }
                    return vstd::pervasive::unreached();
                }
            };
            let dn = inst.dependencies.len();
            let mut k: usize = 0;
            while k < dn
                invariant
                    dn == inst.dependencies@.len(),
                    inst@ == m[cur],
                    pend.contains(cur),
                    reaches(m, pend, from, cur),
                    visited@.len() >= 1,
                    visited@[0] == from,
                    visited@.no_duplicates(),
                    forall|x: int| 0 <= x < visited@.len() ==> pend.contains(
                        #[trigger] visited@[x],
                    ) && reaches(m, pend, from, visited@[x]),
                    forall|w: int| 0 <= w < work@.len() ==> visited@.contains(
                        #[trigger] work@[w],
                    ),
                    !visited@.contains(target),
                    visited@.contains(cur),
                    forall|x: int| 0 <= x < visited@.len()
                        ==> work@.contains(#[trigger] visited@[x]) || visited@[x] == cur
                        || (forall|d: InstanceRef| m[visited@[x]].deps.contains(d)
                            && pend.contains(d) ==> #[trigger] visited@.contains(d)),
                    forall|l: int| 0 <= l < k && pend.contains(
                        #[trigger] inst.dependencies@[l],
                    ) ==> visited@.contains(inst.dependencies@[l]),
                    visited@.len() <= bound,
                    work@.len() + bound - visited@.len() <= work_popped.len() + bound
                        - visited_pre.len(),
                decreases dn - k,
            {
                let d = inst.dependencies[k];
                let d_applied = self.is_applied(d);
                let d_pending = if d_applied {
                    false
                } else {
                    match log.get(d) {
                        Ok(di) => di.state == CommandState::Committed,
                        Err(_) => false,
                    }
                };
                proof {
                    assert(d_pending == pend.contains(d));
                }
                if d_pending {
                    proof {
                        let nn = choose|nn: nat| reaches_in(m, pend, from, cur, nn);
                        lemma_reaches_extend(m, pend, from, cur, d, nn);
                        assert(reaches(m, pend, from, d));
                    }
                    if d == target {
                        return true;
                    }
                    if !crate::replica::contains_ref(&visited, d) {
                        let ghost visited_old = visited@;
                        let ghost work_old = work@;
                        visited.push(d);
                        work.push(d);
                        proof {
                            lemma_push_contains(visited_old, d);
                            lemma_push_contains(work_old, d);
                            assert forall|x1: int, x2: int| 0 <= x1 < x2 < visited@.len()
                                implies visited@[x1] != visited@[x2] by {
                                if x2 == visited@.len() - 1 {
                                    assert(visited@[x1] == visited_old[x1]);
                                    assert(visited_old.contains(visited_old[x1]));
                                }
                            }
                            assert(visited@.len() <= bound) by {
                                visited@.unique_seq_to_set();
                                assert forall|q: InstanceRef| #[trigger] visited@.to_set().contains(
                                    q,
                                ) implies m.dom().contains(q) by {
                                    let x = choose|x: int|
                                        0 <= x < visited@.len() && visited@[x] == q;
                                }
                                vstd::set_lib::lemma_len_subset(visited@.to_set(), m.dom());
                            }
                            assert(work@[work@.len() - 1] == d);
                            assert forall|x: int| 0 <= x < visited@.len()
                                implies work@.contains(#[trigger] visited@[x]) || visited@[x]
                                    == cur || (forall|dd: InstanceRef|
                                m[visited@[x]].deps.contains(dd) && pend.contains(dd)
                                    ==> #[trigger] visited@.contains(dd)) by {
                                if x == visited@.len() - 1 {
                                    assert(work@.contains(d));
                                } else {
                                    assert(visited@[x] == visited_old[x]);
                                    if work_old.contains(visited_old[x]) {
                                        let w = choose|w: int|
                                            0 <= w < work_old.len() && work_old[w]
                                                == visited_old[x];
                                        assert(work@[w] == visited@[x]);
                                    } else if visited_old[x] != cur {
                                        assert forall|dd: InstanceRef|
                                            m[visited@[x]].deps.contains(dd) && pend.contains(dd)
                                            implies #[trigger] visited@.contains(dd) by {
                                            assert(visited_old.contains(dd));
                                        }
                                    }
                                }
                            }
                        }
                    }
                }
                k = k + 1;
            }
            proof {
                // cur's pending dependencies are all visited now, so cur no
                // longer needs a worklist entry
                assert forall|x: int| 0 <= x < visited@.len()
                    implies work@.contains(#[trigger] visited@[x]) || (forall|d: InstanceRef|
                    m[visited@[x]].deps.contains(d) && pend.contains(d)
                        ==> #[trigger] visited@.contains(d)) by {
                    if visited@[x] == cur {
                        assert forall|d: InstanceRef| m[cur].deps.contains(d) && pend.contains(d)
                            implies #[trigger] visited@.contains(d) by {
                            assert(m[cur].deps =~= inst.dependencies@.to_set());
                            let l = choose|l: int|
                                0 <= l < inst.dependencies@.len() && inst.dependencies@[l] == d;
                        }
                    }
                }
            }
        }
        proof {
            // the search closed without meeting the target: everything a
            // visited slot depends on within the pending set is visited, so
            // nothing visited reaches the unvisited target
            if reaches(m, pend, from, target) {
                assert forall|x: InstanceRef, d: InstanceRef|
                    #[trigger] visited@.to_set().contains(x) && #[trigger] m[x].deps.contains(d)
                        && pend.contains(d) implies visited@.to_set().contains(d) by {
                    let xi = choose|xi: int| 0 <= xi < visited@.len() && visited@[xi] == x;
                }
                let nn = choose|nn: nat| reaches_in(m, pend, from, target, nn);
                assert(visited@.to_set().contains(from)) by {
                    assert(visited@[0] == from);
                }
                lemma_reaches_closed(m, pend, visited@.to_set(), from, target, nn);
                assert(visited@.contains(target));
                assert(false);
            }
        }
        false
    }

    /// One execution run: applies every Committed, not-yet-applied instance
    /// whose dependencies are cleared (see `valid_batch`) to the key/value
    /// store, in ascending `(seq, replica, slot)` order, marks each applied
    /// exactly once, and returns the applied batch. The batch is a function
    /// of the log's committed set and the set applied so far alone, so
    /// replicas sharing a committed set reach the same store.
    #[verifier::loop_isolation(false)]
    #[verifier::rlimit(100)]
    pub fn execute(&mut self, log: &Commands) -> (batch: Vec<InstanceRef>)
        requires
            log.wf(),
            old(self).wf(),
        ensures
            final(self).wf(),
            valid_batch(log@, old(self).applied_view(), batch@),
            final(self).applied_view() == old(self).applied_view().union(batch@.to_set()),
            final(self).store_view() == apply_seq(log@, old(self).store_view(), batch@),
    {
        let ghost m = log@;
        let ghost ap0 = self.applied@.to_set();
        let ghost st0 = store_map(self.store@);
        let ghost s = log.0@;
        proof {
            lemma_entries_map(s);
        }
        // gather the committed, not-yet-applied instances with their
        // sequence numbers
        let n = log.0.len();
        let mut cand: Vec<(usize, InstanceRef)> = Vec::new();
        let mut i: usize = 0;
        while i < n
            invariant
                0 <= i <= n,
                forall|x: int| 0 <= x < cand@.len() ==> pending(m, ap0, (#[trigger] cand@[x]).1)
                    && cand@[x].0 as nat == m[cand@[x].1].seq,
                forall|x: int| 0 <= x < cand@.len() ==> exists|j: int|
                    0 <= j < i && (#[trigger] s[j]).0 == (#[trigger] cand@[x]).1,
                forall|x: int, y: int| 0 <= x < y < cand@.len()
                    ==> (#[trigger] cand@[x]).1 != (#[trigger] cand@[y]).1,
                forall|j: int| 0 <= j < i && pending(m, ap0, (#[trigger] s[j]).0) ==> exists|x: int|
                    0 <= x < cand@.len() && (#[trigger] cand@[x]).1 == s[j].0,
            decreases n - i,
        {
            let entry = &log.0[i];
            let committed = entry.1.state == CommandState::Committed;
            let already = self.is_applied(entry.0);
            if committed && !already {
                let ghost cand_old = cand@;
                cand.push((entry.1.seq, entry.0));
                proof {
                    assert(m[s[i as int].0] == s[i as int].1@);
                    assert(pending(m, ap0, s[i as int].0));
                    assert forall|x: int, y: int| 0 <= x < y < cand@.len()
                        implies (#[trigger] cand@[x]).1 != (#[trigger] cand@[y]).1 by {
                        if y == cand@.len() - 1 {
                            let j = choose|j: int|
                                0 <= j < i && (#[trigger] s[j]).0 == (#[trigger] cand_old[x]).1;
                            assert(s[j].0 != s[i as int].0);
                        }
                    }
                    assert forall|j: int| 0 <= j < i + 1 && pending(m, ap0, (#[trigger] s[j]).0)
                        implies exists|x: int|
                        0 <= x < cand@.len() && (#[trigger] cand@[x]).1 == s[j].0 by {
                        if j < i {
                            let x = choose|x: int|
                                0 <= x < cand_old.len() && (#[trigger] cand_old[x]).1 == s[j].0;
                            assert(cand@[x].1 == s[j].0);
                        } else {
                            assert(cand@[cand@.len() - 1].1 == s[j].0);
                        }
                    }
                }
            } else {
                proof {
                    assert(m[s[i as int].0] == s[i as int].1@);
                    assert(!pending(m, ap0, s[i as int].0));
                }
            }
            i = i + 1;
        }
        proof {
            assert forall|r: InstanceRef| pending(m, ap0, r) implies exists|x: int|
                0 <= x < cand@.len() && (#[trigger] cand@[x]).1 == r by {
                let j = choose|j: int| 0 <= j < s.len() && (#[trigger] s[j]).0 == r;
                assert(pending(m, ap0, s[j].0));
            }
        }
        // deterministic application order: ascending (seq, replica, slot)
        let sc = sort_by_key(cand);
        proof {
            assert forall|x: int| 0 <= x < sc@.len()
                implies pending(m, ap0, (#[trigger] sc@[x]).1)
                    && sc@[x].0 as nat == m[sc@[x].1].seq by {
                assert(sc@.contains(sc@[x]));
                assert(cand@.contains(sc@[x]));
                let c = choose|c: int| 0 <= c < cand@.len() && cand@[c] == sc@[x];
            }
            assert forall|x: int, y: int| 0 <= x < y < sc@.len()
                implies exec_before(m, (#[trigger] sc@[x]).1, (#[trigger] sc@[y]).1)
                    && sc@[x].1 != sc@[y].1 by {
                assert(key_lt_spec(sc@[x], sc@[y]));
                if sc@[x].1 == sc@[y].1 {
                    assert(sc@[x].0 == sc@[y].0);
                    assert(false);
                }
            }
            assert forall|r: InstanceRef| pending(m, ap0, r) implies exists|x: int|
                0 <= x < sc@.len() && (#[trigger] sc@[x]).1 == r by {
                let c = choose|c: int| 0 <= c < cand@.len() && (#[trigger] cand@[c]).1 == r;
                assert(cand@.contains(cand@[c]));
                assert(sc@.contains(cand@[c]));
                let x = choose|x: int| 0 <= x < sc@.len() && sc@[x] == cand@[c];
            }
        }
        // emit, in order, every candidate whose dependencies are cleared
        let sn = sc.len();
        let mut batch: Vec<InstanceRef> = Vec::new();
        let mut idx: usize = 0;
        while idx < sn
            invariant
                0 <= idx <= sn,
                forall|x: int| 0 <= x < batch@.len() ==> exists|j: int|
                    0 <= j < idx && (#[trigger] sc@[j]).1 == #[trigger] batch@[x],
                forall|x: int, y: int| 0 <= x < y < batch@.len()
                    ==> exec_before(m, #[trigger] batch@[x], #[trigger] batch@[y]),
                forall|j: int| 0 <= j < idx ==> (#[trigger] batch@.contains(sc@[j].1)
                    <==> deps_cleared(m, ap0, batch@.to_set(), sc@[j].1)),
            decreases sn - idx,
        {
            let pair = sc[idx];
            let sq = pair.0;
            let r = pair.1;
            let inst = match log.get(r) {
                Ok(inst) => inst,
                Err(_) => {
                    return vstd::pervasive::unreached();
                }
            };
            let dn = inst.dependencies.len();
            let mut ok = true;
            let mut k: usize = 0;
            while k < dn
                invariant
                    0 <= k <= dn,
                    dn == inst.dependencies@.len(),
                    inst@ == m[r],
                    ok == forall|l: int| 0 <= l < k
                        ==> dep_cleared(m, ap0, batch@.to_set(), r, #[trigger] inst.dependencies@[l]),
                decreases dn - k,
            {
                let d = inst.dependencies[k];
                let c1 = self.is_applied(d);
                let c2 = crate::replica::contains_ref(&batch, d);
                let c3 = if c1 {
                    false
                } else {
                    let d_pending = match log.get(d) {
                        Ok(di) => di.state == CommandState::Committed,
                        Err(_) => false,
                    };
                    if d_pending {
                        // d is pending too: clear it only when it lies in
                        // the same dependency cycle as r
                        self.reaches_pending(log, d, r)
                    } else {
                        false
                    }
                };
                proof {
                    if c2 {
                        let x = choose|x: int| 0 <= x < batch@.len() && batch@[x] == d;
                        let j = choose|j: int| 0 <= j < idx && (#[trigger] sc@[j]).1 == batch@[x];
                        assert(exec_before(m, d, r));
                        assert(batch@.to_set().contains(d));
                    }
                    assert((c1 || c2 || c3) == dep_cleared(
                        m,
                        ap0,
                        batch@.to_set(),
                        r,
                        inst.dependencies@[k as int],
                    ));
                }
                if !(c1 || c2 || c3) {
                    ok = false;
                }
                k = k + 1;
            }
            proof {
                assert(m[r].deps =~= inst.dependencies@.to_set());
                if ok {
                    assert forall|d: InstanceRef| #[trigger] m[r].deps.contains(d)
                        implies dep_cleared(m, ap0, batch@.to_set(), r, d) by {
                        let l = choose|l: int|
                            0 <= l < inst.dependencies@.len() && inst.dependencies@[l] == d;
                    }
                } else {
                    let l = choose|l: int| 0 <= l < dn && !dep_cleared(
                        m,
                        ap0,
                        batch@.to_set(),
                        r,
                        #[trigger] inst.dependencies@[l],
                    );
                    assert(m[r].deps.contains(inst.dependencies@[l]));
                }
            }
            if ok {
                let ghost batch_old = batch@;
                batch.push(r);
                proof {
                    lemma_push_contains(batch_old, r);
                    assert(batch@[batch@.len() - 1] == r);
                    assert forall|x: int| 0 <= x < batch@.len() implies exists|j: int|
                        0 <= j < idx + 1 && (#[trigger] sc@[j]).1 == #[trigger] batch@[x] by {
                        if x < batch@.len() - 1 {
                            let j = choose|j: int|
                                0 <= j < idx && (#[trigger] sc@[j]).1 == batch_old[x];
                        } else {
                            assert(sc@[idx as int].1 == batch@[x]);
                        }
                    }
                    assert forall|x: int, y: int| 0 <= x < y < batch@.len()
                        implies exec_before(m, #[trigger] batch@[x], #[trigger] batch@[y]) by {
                        if y == batch@.len() - 1 {
                            let j = choose|j: int|
                                0 <= j < idx && (#[trigger] sc@[j]).1 == batch_old[x];
                            assert(exec_before(m, sc@[j].1, sc@[idx as int].1));
                        }
                    }
                    assert(batch@.to_set() =~= batch_old.to_set().insert(r));
                    // membership of already-settled candidates does not change:
                    // everything later in the batch comes after them in the order
                    assert forall|j: int| 0 <= j < idx + 1
                        implies (#[trigger] batch@.contains(sc@[j].1)
                            <==> deps_cleared(m, ap0, batch@.to_set(), sc@[j].1)) by {
                        let rj = sc@[j].1;
                        if j == idx {
                            assert(batch@.contains(r));
                            assert forall|d: InstanceRef| #[trigger] m[r].deps.contains(d)
                                implies dep_cleared(m, ap0, batch@.to_set(), r, d) by {
                                assert(dep_cleared(m, ap0, batch_old.to_set(), r, d));
                            }
                        } else {
                            assert(batch@.contains(rj) == (batch_old.contains(rj) || rj == r));
                            if rj == r {
                                assert(sc@[j].1 != sc@[idx as int].1);
                                assert(false);
                            }
                            if batch_old.contains(rj) {
                                assert(deps_cleared(m, ap0, batch_old.to_set(), rj));
                                assert forall|d: InstanceRef| #[trigger] m[rj].deps.contains(d)
                                    implies dep_cleared(m, ap0, batch@.to_set(), rj, d) by {
                                    assert(dep_cleared(m, ap0, batch_old.to_set(), rj, d));
                                }
                            } else {
                                assert(!deps_cleared(m, ap0, batch_old.to_set(), rj));
                                let d = choose|d: InstanceRef| #[trigger] m[rj].deps.contains(d)
                                    && !dep_cleared(m, ap0, batch_old.to_set(), rj, d);
                                assert(exec_before(m, rj, r));
                                assert(!exec_before(m, r, rj));
                                assert(!dep_cleared(m, ap0, batch@.to_set(), rj, d));
                            }
                        }
                    }
                }
            } else {
                proof {
                    let rj = sc@[idx as int].1;
                    if batch@.contains(rj) {
                        let x = choose|x: int| 0 <= x < batch@.len() && batch@[x] == rj;
                        let j = choose|j: int| 0 <= j < idx && (#[trigger] sc@[j]).1 == batch@[x];
                        assert(sc@[j].1 != sc@[idx as int].1);
                        assert(false);
                    }
                }
            }
            idx = idx + 1;
        }
        proof {
            // the emitted batch is exactly a valid batch for (m, ap0)
            assert forall|x: int| 0 <= x < batch@.len()
                implies pending(m, ap0, #[trigger] batch@[x]) by {
                let j = choose|j: int| 0 <= j < sn && (#[trigger] sc@[j]).1 == batch@[x];
            }
            assert forall|r: InstanceRef| pending(m, ap0, r)
                implies (#[trigger] batch@.contains(r) <==> deps_cleared(
                m,
                ap0,
                batch@.to_set(),
                r,
            )) by {
                let j = choose|j: int| 0 <= j < sc@.len() && (#[trigger] sc@[j]).1 == r;
            }
            assert(valid_batch(m, ap0, batch@));
        }
        // record the batch as applied, exactly once per instance
        let ghost ap_vec0 = self.applied@;
        let bn = batch.len();
        let mut x: usize = 0;
        while x < bn
            invariant
                0 <= x <= bn,
                self.applied@ == ap_vec0 + batch@.take(x as int),
                self.store@ == old(self).store@,
            decreases bn - x,
        {
            self.applied.push(batch[x]);
            proof {
                assert(self.applied@ =~= ap_vec0 + batch@.take(x + 1));
            }
            x = x + 1;
        }
        proof {
            assert(self.applied@ == ap_vec0 + batch@.take(bn as int));
            assert(batch@.take(bn as int) =~= batch@);
            let ap_new = self.applied@;
            assert forall|a: int, b: int| 0 <= a < b < ap_new.len()
                implies ap_new[a] != ap_new[b] by {
                let alen = ap_vec0.len();
                if b < alen {
                    assert(ap_new[a] == ap_vec0[a] && ap_new[b] == ap_vec0[b]);
                } else if a >= alen {
                    assert(ap_new[a] == batch@[a - alen] && ap_new[b] == batch@[b - alen]);
                    assert(exec_before(m, batch@[a - alen], batch@[b - alen]));
                } else {
                    assert(ap_new[a] == ap_vec0[a] && ap_new[b] == batch@[b - alen]);
                    assert(pending(m, ap0, batch@[b - alen]));
                    if ap_vec0[a] == batch@[b - alen] {
                        assert(ap_vec0.contains(batch@[b - alen]));
                        assert(ap0.contains(batch@[b - alen]));
                        assert(false);
                    }
                }
            }
            assert forall|q: InstanceRef| #[trigger] ap_new.to_set().contains(q)
                implies ap0.union(batch@.to_set()).contains(q) by {
                let j = choose|j: int| 0 <= j < ap_new.len() && ap_new[j] == q;
                if j < ap_vec0.len() {
                    assert(ap_vec0[j] == q);
                    assert(ap_vec0.contains(q));
                } else {
                    assert(batch@[j - ap_vec0.len()] == q);
                    assert(batch@.contains(q));
                }
            }
            assert forall|q: InstanceRef| ap0.union(batch@.to_set()).contains(q)
                implies #[trigger] ap_new.to_set().contains(q) by {
                if ap0.contains(q) {
                    let j = choose|j: int| 0 <= j < ap_vec0.len() && ap_vec0[j] == q;
                    assert(ap_new[j] == q);
                } else {
                    let j = choose|j: int| 0 <= j < batch@.len() && batch@[j] == q;
                    assert(ap_new[ap_vec0.len() + j] == q);
                }
            }
            assert(ap_new.to_set() =~= ap0.union(batch@.to_set()));
        }
        // apply the batch to the store, in order
        let mut x: usize = 0;
        while x < bn
            invariant
                0 <= x <= bn,
                self.wf(),
                self.applied@.to_set() == ap0.union(batch@.to_set()),
                store_map(self.store@) == apply_seq(m, st0, batch@.take(x as int)),
            decreases bn - x,
        {
            let r = batch[x];
            match log.get(r) {
                Ok(inst) => {
                    self.apply_one(&inst.command.key, inst.command.value);
                    proof {
                        assert(batch@.take(x + 1).drop_last() =~= batch@.take(x as int));
                        assert(batch@.take(x + 1).last() == batch@[x as int]);
                        assert(inst@ == m[r]);
                    }
                }
                Err(_) => {
                    proof {
                        assert(pending(m, ap0, batch@[x as int]));
                    }
                    return vstd::pervasive::unreached();
                }
            }
            x = x + 1;
        }
        proof {
            assert(batch@.take(bn as int) =~= batch@);
        }
        batch
    }

    /// Writes `value` under `key`, overwriting any earlier value.
    #[verifier::loop_isolation(false)]
    fn apply_one(&mut self, key: &String, value: i32)
        requires
            old(self).wf(),
        ensures
            final(self).wf(),
            final(self).store_view() == old(self).store_view().insert(key@, value as int),
            final(self).applied@ == old(self).applied@,
    {
        let ghost s_old = self.store@;
        let ghost ap_old = self.applied@;
        proof {
            lemma_store_map(s_old);
        }
        let n = self.store.len();
        let mut i: usize = 0;
        while i < n
            invariant
                self.wf(),
                self.store@ == s_old,
                self.applied@ == ap_old,
                n == s_old.len(),
                0 <= i <= n,
                forall|j: int| 0 <= j < i ==> (#[trigger] s_old[j]).0@ != key@,
            decreases n - i,
        {
            if self.store[i].0 == *key {
                self.store.set(i, (key.clone(), value));
                proof {
                    lemma_store_map(s_old);
                    let s_new = self.store@;
                    assert(s_new == s_old.update(i as int, s_new[i as int]));
                    assert(s_new[i as int].0@ == key@);
                    assert(s_new[i as int].1 == value);
                    assert(forall|j: int| 0 <= j < s_new.len() && j != i
                        ==> #[trigger] s_new[j] == s_old[j]);
                    assert(store_keys_unique(s_new));
                    lemma_store_map(s_new);
                    assert forall|q: Seq<char>| #[trigger] store_map(s_new).dom().contains(q)
                        <==> store_map(s_old).insert(key@, value as int).dom().contains(q) by {
                        if store_map(s_new).dom().contains(q) {
                            let j = choose|j: int| 0 <= j < s_new.len() && (#[trigger] s_new[j]).0@ == q;
                            if j != i {
                                assert(s_old[j].0@ == q);
                            }
                        }
                        if q != key@ && store_map(s_old).dom().contains(q) {
                            let j = choose|j: int| 0 <= j < s_old.len() && (#[trigger] s_old[j]).0@ == q;
                            assert(s_new[j].0@ == q);
                        }
                        if q == key@ {
                            assert(s_new[i as int].0@ == q);
                        }
                    }
                    assert forall|q: Seq<char>| #[trigger] store_map(s_new).dom().contains(q)
                        implies store_map(s_new)[q] == store_map(s_old).insert(
                        key@,
                        value as int,
                    )[q] by {
                        let j = choose|j: int| 0 <= j < s_new.len() && (#[trigger] s_new[j]).0@ == q;
                        assert(store_map(s_new)[q] == s_new[j].1 as int);
                        if q == key@ {
                            assert(j == i);
                        } else {
                            assert(j != i);
                            assert(s_old[j].0@ == q);
                            assert(store_map(s_old)[q] == s_old[j].1 as int);
                        }
                    }
                    assert(store_map(s_new) =~= store_map(s_old).insert(key@, value as int));
                }
                return;
            }
            i = i + 1;
        }
        self.store.push((key.clone(), value));
        proof {
            let s_new = self.store@;
            assert(s_new.drop_last() =~= s_old);
            assert forall|a: int, b: int| 0 <= a < b < s_new.len()
                implies (#[trigger] s_new[a]).0@ != (#[trigger] s_new[b]).0@ by {
                if b == s_new.len() - 1 {
                    assert(s_new[a] == s_old[a]);
                } else {
                    assert(s_new[a] == s_old[a]);
                    assert(s_new[b] == s_old[b]);
                }
            }
        }
    }
}

} // verus!
