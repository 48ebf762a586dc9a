//! The protocol laws: properties that relate several operations, proved
//! from the contracts the operations themselves carry.

use vstd::prelude::*;
use vstd::seq_lib::seq_to_set_is_finite;

use crate::exec::apply_seq;
use crate::exec::pending;
use crate::exec::valid_batch;
use crate::replica::interference_of;
use crate::replica::is_slow_deps;
use crate::replica::is_slow_seq;
use crate::types::CommandState;
use crate::types::InstanceModel;
use crate::types::InstanceRef;
use crate::types::PayloadModel;
use crate::types::PreAcceptOK;

verus! {

/// No lost conflict. Two commands on the same key proposed concurrently at
/// different replicas observe each other: when the replica that logged an
/// interfering instance `b` handles the other command's PreAccept, `b` is
/// either already among the leader's listed dependencies or in the
/// difference set the handler returns (`pre_accept_` promises the reply
/// carries exactly the local interference minus the leader's list), so the
/// leader's slow-path union — dependencies joined with every reply's
/// difference set (`write2` promises it) — records `b`.
pub proof fn lemma_no_lost_conflict(
    m: Map<InstanceRef, InstanceModel>,
    key: Seq<char>,
    leader_deps: Set<InstanceRef>,
    reply_diff: Set<InstanceRef>,
    b: InstanceRef,
)
    requires
        reply_diff == interference_of(m, key).difference(leader_deps),
        m.dom().contains(b),
        m[b].command.key == key,
    ensures
        leader_deps.union(reply_diff).contains(b),
{
    assert(interference_of(m, key).contains(b));
}

/// Every committed instance's sequence number exceeds that of each of its
/// dependencies present in the log.
pub open spec fn seq_dominates_deps(m: Map<InstanceRef, InstanceModel>) -> bool {
    forall|r: InstanceRef, d: InstanceRef|
        m.dom().contains(r) && m[r].state is Committed && #[trigger] m[r].deps.contains(d)
            && m.dom().contains(d) ==> m[d].seq < m[r].seq
}

/// Sequence dominance is preserved when a leader commits an instance it
/// created itself: its sequence number was assigned above every listed
/// dependency (`write1` promises it), its slot is fresh, and no earlier
/// instance can list a slot that did not exist yet. Instances committed by
/// *concurrent* proposals at different replicas can end up in a dependency
/// cycle, where the members cannot all dominate one another; dominance
/// does not reach across such a cycle, and the execution engine applies
/// the cycle as one group instead.
pub proof fn lemma_leader_commit_preserves_dominance(
    m: Map<InstanceRef, InstanceModel>,
    r: InstanceRef,
    cmd: crate::types::CommandModel,
    s: nat,
    deps: Set<InstanceRef>,
)
    requires
        seq_dominates_deps(m),
        !m.dom().contains(r),
        !deps.contains(r),
        forall|d: InstanceRef| #[trigger] deps.contains(d) && m.dom().contains(d)
            ==> m[d].seq < s,
        forall|r2: InstanceRef| #[trigger] m.dom().contains(r2) ==> !m[r2].deps.contains(r),
    ensures
        seq_dominates_deps(
            m.insert(r, InstanceModel { command: cmd, seq: s, deps, state: CommandState::Committed }),
        ),
{
    let m2 = m.insert(
        r,
        InstanceModel { command: cmd, seq: s, deps, state: CommandState::Committed },
    );
    assert forall|r2: InstanceRef, d: InstanceRef|
        m2.dom().contains(r2) && m2[r2].state is Committed && #[trigger] m2[r2].deps.contains(d)
            && m2.dom().contains(d) implies m2[d].seq < m2[r2].seq by {
        if r2 == r {
            assert(deps.contains(d));
            assert(d != r);
        } else {
            assert(m.dom().contains(r2));
            assert(m[r2].deps.contains(d));
            assert(d != r);
        }
    }
}

/// The slow path is order-independent. The fold of the PreAcceptOK replies
/// (`write2` promises exactly the clauses assumed here) gives the same
/// sequence number and the same dependency set whatever order the replies
/// arrived in: any two reply sequences with the same replies as a multiset
/// determine equal results.
pub proof fn lemma_slow_path_order_independent(
    proposal_seq: nat,
    proposal_deps: Set<InstanceRef>,
    rs1: Seq<PreAcceptOK>,
    rs2: Seq<PreAcceptOK>,
    v1: nat,
    v2: nat,
    d1: Set<InstanceRef>,
    d2: Set<InstanceRef>,
)
    requires
        rs1.to_multiset() == rs2.to_multiset(),
        is_slow_seq(proposal_seq, rs1, v1),
        is_slow_seq(proposal_seq, rs2, v2),
        is_slow_deps(proposal_deps, rs1, d1),
        is_slow_deps(proposal_deps, rs2, d2),
    ensures
        v1 == v2,
        d1 == d2,
{
    rs1.to_multiset_ensures();
    rs2.to_multiset_ensures();
    assert forall|x: PreAcceptOK| #[trigger] rs1.contains(x) implies rs2.contains(x) by {
        assert(rs1.to_multiset().count(x) > 0);
    }
    assert forall|x: PreAcceptOK| #[trigger] rs2.contains(x) implies rs1.contains(x) by {
        assert(rs2.to_multiset().count(x) > 0);
    }
    if v1 < v2 {
        assert(v2 != proposal_seq);
        let i = choose|i: int| 0 <= i < rs2.len() && (#[trigger] rs2[i]).0@.seq == v2;
        assert(rs2.contains(rs2[i]));
        assert(rs1.contains(rs2[i]));
        let j = choose|j: int| 0 <= j < rs1.len() && rs1[j] == rs2[i];
        assert(rs1[j].0@.seq <= v1);
        assert(false);
    }
    if v2 < v1 {
        assert(v1 != proposal_seq);
        let i = choose|i: int| 0 <= i < rs1.len() && (#[trigger] rs1[i]).0@.seq == v1;
        assert(rs1.contains(rs1[i]));
        assert(rs2.contains(rs1[i]));
        let j = choose|j: int| 0 <= j < rs2.len() && rs2[j] == rs1[i];
        assert(rs2[j].0@.seq <= v2);
        assert(false);
    }
    assert forall|q: InstanceRef| #[trigger] d1.contains(q) implies d2.contains(q) by {
        if !proposal_deps.contains(q) {
            let i = choose|i: int| 0 <= i < rs1.len()
                && (#[trigger] rs1[i]).0.dependencies@.contains(q);
            assert(rs1.contains(rs1[i]));
            assert(rs2.contains(rs1[i]));
            let j = choose|j: int| 0 <= j < rs2.len() && rs2[j] == rs1[i];
            assert(rs2[j].0.dependencies@.contains(q));
        }
    }
    assert forall|q: InstanceRef| #[trigger] d2.contains(q) implies d1.contains(q) by {
        if !proposal_deps.contains(q) {
            let i = choose|i: int| 0 <= i < rs2.len()
                && (#[trigger] rs2[i]).0.dependencies@.contains(q);
            assert(rs2.contains(rs2[i]));
            assert(rs1.contains(rs2[i]));
            let j = choose|j: int| 0 <= j < rs1.len() && rs1[j] == rs2[i];
            assert(rs1[j].0.dependencies@.contains(q));
        }
    }
    assert(d1 =~= d2);
}

/// The application order is total: of two distinct slots, one comes before
/// the other, and never both ways.
proof fn lemma_exec_before_total(m: Map<InstanceRef, InstanceModel>, a: InstanceRef, b: InstanceRef)
    requires
        a != b,
    ensures
        crate::exec::exec_before(m, a, b) || crate::exec::exec_before(m, b, a),
        !(crate::exec::exec_before(m, a, b) && crate::exec::exec_before(m, b, a)),
{
}

/// Every finite, nonempty set of slots has a least element in the
/// application order.
proof fn lemma_min_exists(m: Map<InstanceRef, InstanceModel>, s: Set<InstanceRef>) -> (q:
    InstanceRef)
    requires
        s.finite(),
        s.len() > 0,
    ensures
        s.contains(q),
        forall|d: InstanceRef| #[trigger] s.contains(d) && d != q ==> crate::exec::exec_before(
            m,
            q,
            d,
        ),
    decreases s.len(),
{
    let x = s.choose();
    assert(s.contains(x));
    let rest = s.remove(x);
    if rest.len() == 0 {
        assert forall|d: InstanceRef| #[trigger] s.contains(d) && d != x
            implies crate::exec::exec_before(m, x, d) by {
            assert(rest.contains(d));
            assert(false);
        }
        x
    } else {
        let q0 = lemma_min_exists(m, rest);
        if crate::exec::exec_before(m, x, q0) {
            assert forall|d: InstanceRef| #[trigger] s.contains(d) && d != x
                implies crate::exec::exec_before(m, x, d) by {
                assert(rest.contains(d));
                if d != q0 {
                    assert(crate::exec::exec_before(m, q0, d));
                    lemma_exec_before_total(m, x, d);
                    if crate::exec::exec_before(m, d, x) {
                        assert(false);
                    }
                }
            }
            x
        } else {
            lemma_exec_before_total(m, x, q0);
            assert forall|d: InstanceRef| #[trigger] s.contains(d) && d != q0
                implies crate::exec::exec_before(m, q0, d) by {
                if d != x {
                    assert(rest.contains(d));
                }
            }
            q0
        }
    }
}

/// Two runs over the same log and applied set choose the same batch: the
/// clauses of `valid_batch` determine the batch uniquely, so every replica
/// that knows the same committed set applies the same instances in the
/// same order — the deterministic total order that makes the replicas'
/// stores agree.
pub proof fn lemma_valid_batch_unique(
    m: Map<InstanceRef, InstanceModel>,
    applied: Set<InstanceRef>,
    b1: Seq<InstanceRef>,
    b2: Seq<InstanceRef>,
)
    requires
        valid_batch(m, applied, b1),
        valid_batch(m, applied, b2),
    ensures
        b1 == b2,
{
    // the two batches hold the same instances
    assert forall|q: InstanceRef| #[trigger] b1.to_set().contains(q) <==> b2.to_set().contains(q) by {
        let diff = b1.to_set().difference(b2.to_set()).union(
            b2.to_set().difference(b1.to_set()),
        );
        if b1.to_set().contains(q) != b2.to_set().contains(q) {
            seq_to_set_is_finite(b1);
            seq_to_set_is_finite(b2);
            assert(diff.contains(q));
            assert(diff.finite());
            assert(diff.len() > 0) by {
                if diff.len() == 0 {
                    assert(diff =~= Set::empty());
                }
            }
            let w = lemma_min_exists(m, diff);
            // the least element of the difference is in one batch, not the
            // other; an uncleared dependency of it must lie below it in the
            // difference — there is none
            let (bin, bout) = if b1.to_set().contains(w) && !b2.to_set().contains(w) {
                (b1, b2)
            } else {
                (b2, b1)
            };
            assert(bin.to_set().contains(w) && !bout.to_set().contains(w));
            assert(bin.contains(w));
            let x = choose|x: int| 0 <= x < bin.len() && bin[x] == w;
            assert(pending(m, applied, w));
            assert(crate::exec::deps_cleared(m, applied, bin.to_set(), w));
            assert(!crate::exec::deps_cleared(m, applied, bout.to_set(), w));
            let d = choose|d: InstanceRef| #[trigger] m[w].deps.contains(d)
                && !crate::exec::dep_cleared(m, applied, bout.to_set(), w, d);
            assert(crate::exec::dep_cleared(m, applied, bin.to_set(), w, d));
            assert(bin.to_set().contains(d) && crate::exec::exec_before(m, d, w));
            assert(!bout.to_set().contains(d));
            assert(diff.contains(d));
            assert(d != w);
            assert(crate::exec::exec_before(m, w, d));
            lemma_exec_before_total(m, d, w);
            assert(false);
        }
    }
    assert(b1.to_set() =~= b2.to_set());
    lemma_sorted_batches_equal(m, b1, b2);
}

/// Two sequences that are strictly ascending in the application order and
/// hold the same set of slots are the same sequence.
proof fn lemma_sorted_batches_equal(
    m: Map<InstanceRef, InstanceModel>,
    b1: Seq<InstanceRef>,
    b2: Seq<InstanceRef>,
)
    requires
        forall|x: int, y: int| 0 <= x < y < b1.len() ==> crate::exec::exec_before(
            m,
            #[trigger] b1[x],
            #[trigger] b1[y],
        ),
        forall|x: int, y: int| 0 <= x < y < b2.len() ==> crate::exec::exec_before(
            m,
            #[trigger] b2[x],
            #[trigger] b2[y],
        ),
        b1.to_set() == b2.to_set(),
    ensures
        b1 == b2,
    decreases b1.len(),
{
    if b1.len() == 0 {
        if b2.len() > 0 {
            assert(b2.to_set().contains(b2[0]));
            assert(b1.to_set().contains(b2[0]));
            assert(false);
        }
        assert(b1 =~= b2);
    } else {
        assert(b1.to_set().contains(b1[0]));
        assert(b2.to_set().contains(b1[0]));
        assert(b2.contains(b1[0]));
        let j = choose|j: int| 0 <= j < b2.len() && b2[j] == b1[0];
        assert(b2.to_set().contains(b2[0]));
        assert(b1.to_set().contains(b2[0]));
        assert(b1.contains(b2[0]));
        let i = choose|i: int| 0 <= i < b1.len() && b1[i] == b2[0];
        if j > 0 {
            assert(crate::exec::exec_before(m, b2[0], b1[0]));
            if i > 0 {
                assert(crate::exec::exec_before(m, b1[0], b2[0]));
                lemma_exec_before_total(m, b1[0], b2[0]);
                assert(b1[0] == b2[0]);
                assert(false);
            }
            assert(b1[0] == b2[0]);
            lemma_exec_before_total(m, b2[0], b1[0]);
            assert(false);
        }
        assert(b1[0] == b2[0]);
        let t1 = b1.drop_first();
        let t2 = b2.drop_first();
        assert forall|q: InstanceRef| #[trigger] t1.to_set().contains(q)
            <==> t2.to_set().contains(q) by {
            if t1.to_set().contains(q) {
                let x = choose|x: int| 0 <= x < t1.len() && t1[x] == q;
                assert(b1[x + 1] == q);
                assert(q != b1[0]) by {
                    assert(crate::exec::exec_before(m, b1[0], b1[x + 1]));
                    lemma_exec_before_total(m, b1[0], q);
                }
                assert(b1.to_set().contains(q));
                assert(b2.contains(q));
                let y = choose|y: int| 0 <= y < b2.len() && b2[y] == q;
                assert(y != 0);
                assert(t2[y - 1] == q);
                assert(t2.to_set().contains(q));
            }
            if t2.to_set().contains(q) {
                let x = choose|x: int| 0 <= x < t2.len() && t2[x] == q;
                assert(b2[x + 1] == q);
                assert(q != b2[0]) by {
                    assert(crate::exec::exec_before(m, b2[0], b2[x + 1]));
                    lemma_exec_before_total(m, b2[0], q);
                }
                assert(b2.to_set().contains(q));
                assert(b1.contains(q));
                let y = choose|y: int| 0 <= y < b1.len() && b1[y] == q;
                assert(y != 0);
                assert(t1[y - 1] == q);
                assert(t1.to_set().contains(q));
            }
        }
        assert(t1.to_set() =~= t2.to_set());
        assert(forall|x: int, y: int| 0 <= x < y < t1.len() ==> crate::exec::exec_before(
            m,
            #[trigger] t1[x],
            #[trigger] t1[y],
        )) by {
            assert(forall|x: int| 0 <= x < t1.len() ==> #[trigger] t1[x] == b1[x + 1]);
        }
        assert(forall|x: int, y: int| 0 <= x < y < t2.len() ==> crate::exec::exec_before(
            m,
            #[trigger] t2[x],
            #[trigger] t2[y],
        )) by {
            assert(forall|x: int| 0 <= x < t2.len() ==> #[trigger] t2[x] == b2[x + 1]);
        }
        lemma_sorted_batches_equal(m, t1, t2);
        assert(b1.len() == b2.len());
        assert forall|x: int| 0 <= x < b1.len() implies b1[x] == b2[x] by {
            if x > 0 {
                assert(t1[x - 1] == b1[x]);
                assert(t2[x - 1] == b2[x]);
            }
        }
        assert(b1 =~= b2);
    }
}

/// Committing is idempotent on the log: handling the same Commit twice
/// (`commit_` promises the log becomes `log.insert(instance, decided)`)
/// leaves the log exactly as handling it once does.
pub proof fn lemma_commit_idempotent(m: Map<InstanceRef, InstanceModel>, p: PayloadModel)
    ensures
        ({
            let decided = InstanceModel {
                command: p.command,
                seq: p.seq,
                deps: p.deps,
                state: CommandState::Committed,
            };
            m.insert(p.instance, decided).insert(p.instance, decided) == m.insert(
                p.instance,
                decided,
            )
        }),
{
    let decided = InstanceModel {
        command: p.command,
        seq: p.seq,
        deps: p.deps,
        state: CommandState::Committed,
    };
    assert(m.insert(p.instance, decided).insert(p.instance, decided) =~= m.insert(
        p.instance,
        decided,
    ));
}

/// Committing is idempotent on the store: once every committed instance is
/// recorded as applied, a further execution run applies nothing — its batch
/// (`execute` promises a `valid_batch`) is empty and the store stands.
pub proof fn lemma_reexecution_applies_nothing(
    m: Map<InstanceRef, InstanceModel>,
    applied: Set<InstanceRef>,
    b: Seq<InstanceRef>,
    st: Map<Seq<char>, int>,
)
    requires
        valid_batch(m, applied, b),
        forall|r: InstanceRef| m.dom().contains(r) && (#[trigger] m[r].state) is Committed
            ==> applied.contains(r),
    ensures
        b.len() == 0,
        apply_seq(m, st, b) == st,
{
    if b.len() > 0 {
        assert(pending(m, applied, b[0]));
        assert(false);
    }
}

} // verus!
