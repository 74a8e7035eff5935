//! The ledger graph: the record set and its operations.

use vstd::prelude::*;

use crate::ids::{generate_unique_id, id_view, is_minted, lemma_distinct_counters_distinct_ids};

verus! {

/// A ledger record.  Constructed only by the ledger's insertion operation;
/// `cumulative_weight` is derived data, rewritten by weight computation.
pub struct Transaction {
    pub id: String,
    pub data: String,
    pub approves: Vec<String>,
    pub cumulative_weight: u64,
}

/// The mathematical value of a record: its payload, the identifiers it
/// approves, and its stored weight.
pub struct TransactionView {
    pub data: Seq<char>,
    pub approves: Seq<Seq<char>>,
    pub cumulative_weight: u64,
}

impl View for Transaction {
    type V = TransactionView;

    open spec fn view(&self) -> TransactionView {
        TransactionView {
            data: self.data@,
            approves: self.approves@.map_values(|s: String| s@),
            cumulative_weight: self.cumulative_weight,
        }
    }
}

/// The ledger as a mapping from identifier to record value.
pub open spec fn map_of(txs: Seq<Transaction>) -> Map<Seq<char>, TransactionView>
    decreases txs.len(),
{
    if txs.len() == 0 {
        Map::empty()
    } else {
        map_of(txs.drop_last()).insert(txs.last().id@, txs.last()@)
    }
}

/// No two records carry the same identifier.
pub open spec fn distinct_ids(txs: Seq<Transaction>) -> bool {
    forall|i: int, j: int| 0 <= i < j < txs.len() ==> txs[i].id@ != txs[j].id@
}

proof fn lemma_map_of_contains(txs: Seq<Transaction>, k: Seq<char>)
    ensures
        map_of(txs).contains_key(k) <==> exists|i: int|
            0 <= i < txs.len() && txs[i].id@ == k,
    decreases txs.len(),
{
    if txs.len() > 0 {
        lemma_map_of_contains(txs.drop_last(), k);
        if map_of(txs).contains_key(k) {
            if txs.last().id@ == k {
                assert(txs[txs.len() - 1].id@ == k);
            } else {
                let i = choose|i: int| 0 <= i < txs.drop_last().len() && txs.drop_last()[i].id@
                    == k;
                assert(txs[i].id@ == k);
            }
        }
        if exists|i: int| 0 <= i < txs.len() && txs[i].id@ == k {
            let i = choose|i: int| 0 <= i < txs.len() && txs[i].id@ == k;
            if i < txs.len() - 1 {
                assert(txs.drop_last()[i].id@ == k);
            }
        }
    }
}

proof fn lemma_map_of_len(txs: Seq<Transaction>)
    requires
        distinct_ids(txs),
    ensures
        map_of(txs).dom().finite(),
        map_of(txs).dom().len() == txs.len(),
    decreases txs.len(),
{
    if txs.len() > 0 {
        assert(distinct_ids(txs.drop_last())) by {
            assert(forall|i: int, j: int|
                0 <= i < j < txs.drop_last().len() ==> txs[i].id@ != txs[j].id@);
        }
        lemma_map_of_len(txs.drop_last());
        lemma_map_of_contains(txs.drop_last(), txs.last().id@);
        assert(!map_of(txs.drop_last()).contains_key(txs.last().id@)) by {
            assert(forall|i: int|
                0 <= i < txs.len() - 1 ==> #[trigger] txs.drop_last()[i].id@ == txs[i].id@
                    && txs[i].id@ != txs[txs.len() - 1].id@);
        }
    }
}

proof fn lemma_map_of_index(txs: Seq<Transaction>, i: int)
    requires
        distinct_ids(txs),
        0 <= i < txs.len(),
    ensures
        map_of(txs).contains_key(txs[i].id@),
        map_of(txs)[txs[i].id@] == txs[i]@,
    decreases txs.len(),
{
    if i == txs.len() - 1 {
    } else {
        assert(distinct_ids(txs.drop_last())) by {
            assert(forall|x: int, y: int|
                0 <= x < y < txs.drop_last().len() ==> txs[x].id@ != txs[y].id@);
        }
        lemma_map_of_index(txs.drop_last(), i);
        assert(txs.drop_last()[i] == txs[i]);
        assert(txs[i].id@ != txs.last().id@);
    }
}

proof fn lemma_map_of_push(txs: Seq<Transaction>, t: Transaction)
    ensures
        map_of(txs.push(t)) == map_of(txs).insert(t.id@, t@),
{
    assert(txs.push(t).drop_last() =~= txs);
    assert(txs.push(t).last() == t);
}

proof fn lemma_map_of_remove(txs: Seq<Transaction>, i: int)
    requires
        distinct_ids(txs),
        0 <= i < txs.len(),
    ensures
        map_of(txs.remove(i)) =~= map_of(txs).remove(txs[i].id@),
        distinct_ids(txs.remove(i)),
    decreases txs.len(),
{
    assert forall|x: int, y: int| 0 <= x < y < txs.remove(i).len() implies txs.remove(i)[x].id@
        != txs.remove(i)[y].id@ by {
        let xx = if x < i { x } else { x + 1 };
        let yy = if y < i { y } else { y + 1 };
        assert(txs.remove(i)[x] == txs[xx]);
        assert(txs.remove(i)[y] == txs[yy]);
        assert(txs[xx].id@ != txs[yy].id@);
    }
    assert(distinct_ids(txs.remove(i)));
    if i == txs.len() - 1 {
        assert(txs.remove(i) =~= txs.drop_last());
        lemma_map_of_contains(txs.drop_last(), txs[i].id@);
        assert(!map_of(txs.drop_last()).contains_key(txs[i].id@)) by {
            assert(forall|x: int|
                0 <= x < txs.len() - 1 ==> #[trigger] txs.drop_last()[x].id@ == txs[x].id@
                    && txs[x].id@ != txs[i].id@);
        }
    } else {
        assert(distinct_ids(txs.drop_last())) by {
            assert(forall|x: int, y: int|
                0 <= x < y < txs.drop_last().len() ==> txs[x].id@ != txs[y].id@);
        }
        lemma_map_of_remove(txs.drop_last(), i);
        assert(txs.remove(i).drop_last() =~= txs.drop_last().remove(i));
        assert(txs.remove(i).last() == txs.last());
        assert(txs[i].id@ != txs.last().id@);
    }
}

/// Whether `k` names a present record all of whose approved identifiers are
/// present in `m`.  Absent identifiers are never valid.
pub open spec fn spec_valid(m: Map<Seq<char>, TransactionView>, k: Seq<char>) -> bool {
    &&& m.contains_key(k)
    &&& forall|j: int|
        0 <= j < m[k].approves.len() ==> m.contains_key(#[trigger] m[k].approves[j])
}

/// Whether `x` approves `tgt` through a chain of at most `n` approval edges
/// read in `m`.  A chain steps from a present record to each identifier in
/// its approval list; the empty chain relates `tgt` to itself.
pub open spec fn reaches_within(
    m: Map<Seq<char>, TransactionView>,
    x: Seq<char>,
    tgt: Seq<char>,
    n: nat,
) -> bool
    decreases n,
{
    x == tgt || (n > 0 && m.contains_key(x) && exists|j: int|
        0 <= j < m[x].approves.len() && reaches_within(
            m,
            #[trigger] m[x].approves[j],
            tgt,
            (n - 1) as nat,
        ))
}

/// Whether `x` approves `tgt` directly or transitively (or is `tgt` itself).
pub open spec fn reaches(m: Map<Seq<char>, TransactionView>, x: Seq<char>, tgt: Seq<char>) -> bool {
    exists|n: nat| reaches_within(m, x, tgt, n)
}

/// The ledger after cascading removal aimed at `tgt`: every record that
/// approves `tgt` directly or transitively is removed, `tgt` itself
/// included.
pub open spec fn cascaded(m: Map<Seq<char>, TransactionView>, tgt: Seq<char>) -> Map<
    Seq<char>,
    TransactionView,
> {
    m.remove_keys(Set::new(|x: Seq<char>| m.contains_key(x) && reaches(m, x, tgt)))
}

/// What cascading invalidation leaves of `m`: the ledger unchanged when
/// `tgt` is valid (the operation only acts on already-broken records), and
/// the cascaded ledger otherwise.
pub open spec fn cascade_post(m: Map<Seq<char>, TransactionView>, tgt: Seq<char>) -> Map<
    Seq<char>,
    TransactionView,
> {
    if spec_valid(m, tgt) {
        m
    } else {
        cascaded(m, tgt)
    }
}

/// A record that approves something that reaches `tgt` reaches `tgt`.
proof fn lemma_reaches_step(
    m: Map<Seq<char>, TransactionView>,
    x: Seq<char>,
    a: Seq<char>,
    tgt: Seq<char>,
)
    requires
        m.contains_key(x),
        exists|j: int| 0 <= j < m[x].approves.len() && m[x].approves[j] == a,
        reaches(m, a, tgt),
    ensures
        reaches(m, x, tgt),
{
    let n = choose|n: nat| reaches_within(m, a, tgt, n);
    let j = choose|j: int| 0 <= j < m[x].approves.len() && m[x].approves[j] == a;
    assert(reaches_within(m, m[x].approves[j], tgt, n));
    assert(reaches_within(m, x, tgt, n + 1));
}

/// Whether every record of `m` agrees with `m0`: removal-only evolution.
spec fn subledger(m: Map<Seq<char>, TransactionView>, m0: Map<Seq<char>, TransactionView>) -> bool {
    forall|k: Seq<char>| #[trigger]
        m.contains_key(k) ==> m0.contains_key(k) && m[k] == m0[k]
}

/// Whether `a` is an identifier that cascading removal has already severed:
/// the target itself, or a record of `m0` no longer present in `m`.
spec fn is_gone(
    m0: Map<Seq<char>, TransactionView>,
    m: Map<Seq<char>, TransactionView>,
    a: Seq<char>,
    tgt: Seq<char>,
) -> bool {
    a == tgt || (m0.contains_key(a) && !m.contains_key(a))
}

/// Whether some element of `pend` views as `a`.
spec fn pending_has(pend: Seq<String>, a: Seq<char>) -> bool {
    exists|p: int| 0 <= p < pend.len() && pend[p]@ == a
}

/// Every approval edge out of a present record into a severed identifier
/// points at an identifier still awaiting processing in `pend`.
spec fn edges_covered(
    txs: Seq<Transaction>,
    pend: Seq<String>,
    m0: Map<Seq<char>, TransactionView>,
    m: Map<Seq<char>, TransactionView>,
    tgt: Seq<char>,
) -> bool {
    forall|ii: int, j: int|
        0 <= ii < txs.len() && 0 <= j < txs[ii].approves@.len() && is_gone(
            m0,
            m,
            #[trigger] txs[ii].approves@[j]@,
            tgt,
        ) ==> pending_has(pend, txs[ii].approves@[j]@)
}

/// Every identifier removed so far reached the target.
spec fn removals_reach(
    m0: Map<Seq<char>, TransactionView>,
    m: Map<Seq<char>, TransactionView>,
    tgt: Seq<char>,
) -> bool {
    forall|k: Seq<char>| #[trigger]
        m0.contains_key(k) && !m.contains_key(k) ==> reaches(m0, k, tgt)
}

/// Copies a list of identifiers.
fn clone_ids(v: &Vec<String>) -> (r: Vec<String>)
    ensures
        r@ == v@,
{
    let mut out: Vec<String> = Vec::new();
    let mut i: usize = 0;
    while i < v.len()
        invariant
            i <= v@.len(),
            out@.len() == i,
            forall|p: int| 0 <= p < i ==> out@[p] == v@[p],
        decreases v@.len() - i,
    {
        out.push(v[i].clone());
        i = i + 1;
    }
    proof {
        assert(out@ =~= v@);
    }
    out
}

/// Whether `v` holds a string viewing as `x@`.
fn approves_contains(v: &Vec<String>, x: &String) -> (r: bool)
    ensures
        r == pending_has(v@, x@),
{
    let mut j: usize = 0;
    while j < v.len()
        invariant
            j <= v@.len(),
            forall|p: int| 0 <= p < j ==> v@[p]@ != x@,
        decreases v@.len() - j,
    {
        if v[j] == *x {
            return true;
        }
        j = j + 1;
    }
    false
}

/// Once no present record has a severed approval, nothing present reaches
/// the target through chains of any length.
proof fn lemma_nothing_left_reaches(
    m0: Map<Seq<char>, TransactionView>,
    m: Map<Seq<char>, TransactionView>,
    tgt: Seq<char>,
    k: Seq<char>,
    n: nat,
)
    requires
        subledger(m, m0),
        !m.contains_key(tgt),
        forall|x: Seq<char>, j: int|
            m.contains_key(x) && 0 <= j < m[x].approves.len() ==> !is_gone(
                m0,
                m,
                #[trigger] m[x].approves[j],
                tgt,
            ),
        m.contains_key(k),
    ensures
        !reaches_within(m0, k, tgt, n),
    decreases n,
{
    if reaches_within(m0, k, tgt, n) {
        assert(k != tgt);
        assert(n > 0 && m0.contains_key(k));
        let j = choose|j: int|
            0 <= j < m0[k].approves.len() && reaches_within(
                m0,
                m0[k].approves[j],
                tgt,
                (n - 1) as nat,
            );
        let a = m0[k].approves[j];
        assert(m[k] == m0[k]);
        assert(!is_gone(m0, m, a, tgt));
        assert(a != tgt);
        if m.contains_key(a) {
            lemma_nothing_left_reaches(m0, m, tgt, a, (n - 1) as nat);
        } else {
            assert(!m0.contains_key(a));
            assert(reaches_within(m0, a, tgt, (n - 1) as nat));
            assert(false);
        }
    }
}

/// After a cascade aimed at `tgt`, no remaining record reaches `tgt` in the
/// cascaded ledger.
proof fn lemma_cascaded_no_reach(
    m: Map<Seq<char>, TransactionView>,
    tgt: Seq<char>,
    k: Seq<char>,
    n: nat,
)
    requires
        cascaded(m, tgt).contains_key(k),
    ensures
        !reaches_within(cascaded(m, tgt), k, tgt, n),
    decreases n,
{
    let m1 = cascaded(m, tgt);
    assert(m.contains_key(k) && !reaches(m, k, tgt));
    if reaches_within(m1, k, tgt, n) {
        if k == tgt {
            assert(reaches_within(m, k, tgt, 0));
        } else {
            let j = choose|j: int|
                0 <= j < m1[k].approves.len() && reaches_within(
                    m1,
                    m1[k].approves[j],
                    tgt,
                    (n - 1) as nat,
                );
            let a = m1[k].approves[j];
            assert(m1[k] == m[k]);
            if a == tgt {
                assert(reaches_within(m, tgt, tgt, 0));
                lemma_reaches_step(m, k, a, tgt);
            } else {
                assert(m1.contains_key(a));
                lemma_cascaded_no_reach(m, tgt, a, (n - 1) as nat);
            }
        }
    }
}

/// Cascading removal removes the target and exactly the records that
/// approved it, directly or transitively: the target does not remain, every
/// record that reaches it is removed, and nothing that remains reaches it.
pub proof fn lemma_cascade_removes_dependents(m: Map<Seq<char>, TransactionView>, tgt: Seq<char>)
    requires
        !spec_valid(m, tgt),
    ensures
        !cascaded(m, tgt).contains_key(tgt),
        forall|k: Seq<char>|
            m.contains_key(k) && reaches(m, k, tgt) ==> !cascaded(m, tgt).contains_key(k),
        forall|k: Seq<char>| #[trigger]
            cascaded(m, tgt).contains_key(k) ==> !reaches(m, k, tgt),
{
    if m.contains_key(tgt) {
        assert(reaches_within(m, tgt, tgt, 0));
        assert(reaches(m, tgt, tgt));
    }
}

/// When the target's record is the only breakage — every broken approval
/// either names the target or sits in a record that reaches it — cascading
/// removal restores full reference integrity: every remaining record's
/// approvals resolve to remaining records.
pub proof fn lemma_cascade_restores_integrity(m: Map<Seq<char>, TransactionView>, tgt: Seq<char>)
    requires
        !spec_valid(m, tgt),
        forall|k: Seq<char>, j: int|
            m.contains_key(k) && 0 <= j < m[k].approves.len() ==> m.contains_key(
                #[trigger] m[k].approves[j],
            ) || m[k].approves[j] == tgt || reaches(m, k, tgt),
    ensures
        forall|k: Seq<char>, j: int|
            cascaded(m, tgt).contains_key(k) && 0 <= j < cascaded(m, tgt)[k].approves.len()
                ==> cascaded(m, tgt).contains_key(#[trigger] cascaded(m, tgt)[k].approves[j]),
{
    let m1 = cascaded(m, tgt);
    assert forall|k: Seq<char>, j: int|
        m1.contains_key(k) && 0 <= j < m1[k].approves.len() implies m1.contains_key(
        #[trigger] m1[k].approves[j],
    ) by {
        assert(m.contains_key(k) && !reaches(m, k, tgt));
        assert(m1[k] == m[k]);
        let a = m[k].approves[j];
        if a == tgt {
            assert(reaches_within(m, tgt, tgt, 0));
            lemma_reaches_step(m, k, a, tgt);
            assert(false);
        } else if !m.contains_key(a) {
            assert(false);
        } else {
            if reaches(m, a, tgt) {
                lemma_reaches_step(m, k, a, tgt);
                assert(false);
            }
        }
    }
}

/// Cascading invalidation is idempotent: applied a second time at the same
/// target (present or already removed), it leaves the ledger unchanged.
pub proof fn lemma_cascade_idempotent(m: Map<Seq<char>, TransactionView>, tgt: Seq<char>)
    ensures
        cascade_post(cascade_post(m, tgt), tgt) == cascade_post(m, tgt),
{
    if spec_valid(m, tgt) {
    } else {
        let m1 = cascaded(m, tgt);
        if m.contains_key(tgt) {
            assert(reaches_within(m, tgt, tgt, 0));
            assert(reaches(m, tgt, tgt));
        }
        assert(!m1.contains_key(tgt));
        assert(!spec_valid(m1, tgt));
        assert forall|x: Seq<char>| #[trigger]
            m1.contains_key(x) implies !reaches(m1, x, tgt) by {
            if reaches(m1, x, tgt) {
                let n = choose|n: nat| reaches_within(m1, x, tgt, n);
                lemma_cascaded_no_reach(m, tgt, x, n);
            }
        }
        assert(cascaded(m1, tgt) =~= m1);
    }
}

/// The cumulative weight of `k` in `m`, unfolded through at most `fuel`
/// levels of approvals: 1 for the record itself plus the weight of every
/// approval, each occurrence counted (a record reached along two approval
/// paths contributes twice).  Absent identifiers weigh 0.  When the fuel
/// runs out at a present record, that record counts only itself; with fuel
/// at least the length of the longest approval chain the value is exact.
pub open spec fn weight_within(
    m: Map<Seq<char>, TransactionView>,
    k: Seq<char>,
    fuel: nat,
) -> nat
    decreases fuel, 0int,
{
    if !m.contains_key(k) {
        0
    } else if fuel == 0 {
        1
    } else {
        1 + sum_within(m, m[k].approves, (fuel - 1) as nat)
    }
}

/// The sum of `weight_within` over a list of identifiers.
pub open spec fn sum_within(
    m: Map<Seq<char>, TransactionView>,
    ids: Seq<Seq<char>>,
    fuel: nat,
) -> nat
    decreases fuel, ids.len(),
{
    if ids.len() == 0 {
        0
    } else {
        weight_within(m, ids[0], fuel) + sum_within(m, ids.drop_first(), fuel)
    }
}

/// The cumulative weight of `k` in `m`.  A ledger of `n` records has no
/// acyclic approval chain longer than `n`, so `n` levels of fuel make the
/// fueled weight exact.
pub open spec fn spec_weight(m: Map<Seq<char>, TransactionView>, k: Seq<char>) -> nat {
    weight_within(m, k, m.dom().len())
}

/// The sum of `spec_weight` over a list of identifiers.
pub open spec fn sum_weights(m: Map<Seq<char>, TransactionView>, ids: Seq<Seq<char>>) -> nat
    decreases ids.len(),
{
    if ids.len() == 0 {
        0
    } else {
        spec_weight(m, ids[0]) + sum_weights(m, ids.drop_first())
    }
}

/// Whether `r` ranks every present approval strictly below its approver:
/// the witness shape of an acyclic approval relation.
pub open spec fn rank_ok(m: Map<Seq<char>, TransactionView>, r: Map<Seq<char>, nat>) -> bool {
    forall|k: Seq<char>, j: int|
        m.contains_key(k) && 0 <= j < m[k].approves.len() && m.contains_key(
            #[trigger] m[k].approves[j],
        ) ==> r[m[k].approves[j]] < r[k]
}

/// Whether every present record's rank lies below the record count.
pub open spec fn rank_bounded(m: Map<Seq<char>, TransactionView>, r: Map<Seq<char>, nat>) -> bool {
    forall|k: Seq<char>| #[trigger] m.contains_key(k) ==> r[k] < m.dom().len()
}

/// Whether the approval relation of `m`, restricted to present records,
/// contains no cycle: witnessed by a bounded rank that strictly decreases
/// along every present approval edge.
pub open spec fn acyclic(m: Map<Seq<char>, TransactionView>) -> bool {
    exists|r: Map<Seq<char>, nat>| rank_ok(m, r) && rank_bounded(m, r)
}

/// Whether two ledgers hold the same records up to their stored weights.
pub open spec fn same_structure(
    m1: Map<Seq<char>, TransactionView>,
    m2: Map<Seq<char>, TransactionView>,
) -> bool {
    &&& m1.dom() == m2.dom()
    &&& forall|k: Seq<char>| #[trigger]
        m1.contains_key(k) ==> m1[k].approves == m2[k].approves && m1[k].data == m2[k].data
}

/// Weights depend only on the ledger's structure, never on stored weights.
proof fn lemma_weight_within_congruent(
    m1: Map<Seq<char>, TransactionView>,
    m2: Map<Seq<char>, TransactionView>,
    k: Seq<char>,
    fuel: nat,
)
    requires
        same_structure(m1, m2),
    ensures
        weight_within(m1, k, fuel) == weight_within(m2, k, fuel),
    decreases fuel, 0int,
{
    if m1.contains_key(k) && fuel > 0 {
        lemma_sum_within_congruent(m1, m2, m1[k].approves, (fuel - 1) as nat);
    }
}

proof fn lemma_sum_within_congruent(
    m1: Map<Seq<char>, TransactionView>,
    m2: Map<Seq<char>, TransactionView>,
    ids: Seq<Seq<char>>,
    fuel: nat,
)
    requires
        same_structure(m1, m2),
    ensures
        sum_within(m1, ids, fuel) == sum_within(m2, ids, fuel),
    decreases fuel, ids.len(),
{
    if ids.len() > 0 {
        lemma_weight_within_congruent(m1, m2, ids[0], fuel);
        lemma_sum_within_congruent(m1, m2, ids.drop_first(), fuel);
    }
}

proof fn lemma_spec_weight_congruent(
    m1: Map<Seq<char>, TransactionView>,
    m2: Map<Seq<char>, TransactionView>,
    k: Seq<char>,
)
    requires
        same_structure(m1, m2),
    ensures
        spec_weight(m1, k) == spec_weight(m2, k),
{
    lemma_weight_within_congruent(m1, m2, k, m1.dom().len());
}

/// With a rank witness, any fuel above the record's rank gives the same
/// weight: the fueled weight has converged.
proof fn lemma_weight_within_stable(
    m: Map<Seq<char>, TransactionView>,
    r: Map<Seq<char>, nat>,
    k: Seq<char>,
    f1: nat,
    f2: nat,
)
    requires
        rank_ok(m, r),
        m.contains_key(k) ==> f1 > r[k] && f2 > r[k],
    ensures
        weight_within(m, k, f1) == weight_within(m, k, f2),
    decreases r[k] + 1, 0int,
{
    if m.contains_key(k) {
        assert forall|j: int|
            0 <= j < m[k].approves.len() && m.contains_key(#[trigger] m[k].approves[j])
            implies r[m[k].approves[j]] < r[k] by {}
        lemma_sum_within_stable(m, r, m[k].approves, (f1 - 1) as nat, (f2 - 1) as nat, r[k]);
    }
}

proof fn lemma_sum_within_stable(
    m: Map<Seq<char>, TransactionView>,
    r: Map<Seq<char>, nat>,
    ids: Seq<Seq<char>>,
    f1: nat,
    f2: nat,
    b: nat,
)
    requires
        rank_ok(m, r),
        forall|j: int|
            0 <= j < ids.len() && m.contains_key(#[trigger] ids[j]) ==> r[ids[j]] < b,
        f1 >= b,
        f2 >= b,
    ensures
        sum_within(m, ids, f1) == sum_within(m, ids, f2),
    decreases b, ids.len(),
{
    if ids.len() > 0 {
        if m.contains_key(ids[0]) {
            assert(r[ids[0]] < b);
            lemma_weight_within_stable(m, r, ids[0], f1, f2);
        }
        assert forall|j: int|
            0 <= j < ids.drop_first().len() && m.contains_key(
                #[trigger] ids.drop_first()[j],
            ) implies r[ids.drop_first()[j]] < b by {
            assert(ids.drop_first()[j] == ids[j + 1]);
        }
        lemma_sum_within_stable(m, r, ids.drop_first(), f1, f2, b);
        assert(sum_within(m, ids, f1) == weight_within(m, ids[0], f1) + sum_within(
            m,
            ids.drop_first(),
            f1,
        ));
        assert(sum_within(m, ids, f2) == weight_within(m, ids[0], f2) + sum_within(
            m,
            ids.drop_first(),
            f2,
        ));
    }
}

/// A sum over a list splits at any point.
proof fn lemma_sum_within_split(
    m: Map<Seq<char>, TransactionView>,
    ids: Seq<Seq<char>>,
    fuel: nat,
    j: int,
)
    requires
        0 <= j <= ids.len(),
    ensures
        sum_within(m, ids, fuel) == sum_within(m, ids.take(j), fuel) + sum_within(
            m,
            ids.skip(j),
            fuel,
        ),
    decreases ids.len(),
{
    if j == 0 {
        assert(ids.take(0) =~= Seq::<Seq<char>>::empty());
        assert(ids.skip(0) =~= ids);
    } else {
        assert(ids.len() > 0);
        lemma_sum_within_split(m, ids.drop_first(), fuel, j - 1);
        assert(ids.take(j).drop_first() =~= ids.drop_first().take(j - 1));
        assert(ids.take(j)[0] == ids[0]);
        assert(ids.skip(j) =~= ids.drop_first().skip(j - 1));
    }
}

/// Under a bounded rank witness, a fueled sum whose fuel covers every
/// element equals the sum of the exact weights.
proof fn lemma_sum_within_eq_sum_weights(
    m: Map<Seq<char>, TransactionView>,
    r: Map<Seq<char>, nat>,
    ids: Seq<Seq<char>>,
    f: nat,
    b: nat,
)
    requires
        rank_ok(m, r),
        rank_bounded(m, r),
        forall|j: int|
            0 <= j < ids.len() && m.contains_key(#[trigger] ids[j]) ==> r[ids[j]] < b,
        f >= b,
    ensures
        sum_within(m, ids, f) == sum_weights(m, ids),
    decreases ids.len(),
{
    if ids.len() > 0 {
        if m.contains_key(ids[0]) {
            assert(r[ids[0]] < b);
            lemma_weight_within_stable(m, r, ids[0], f, m.dom().len());
        }
        assert(weight_within(m, ids[0], f) == spec_weight(m, ids[0]));
        assert forall|j: int|
            0 <= j < ids.drop_first().len() && m.contains_key(
                #[trigger] ids.drop_first()[j],
            ) implies r[ids.drop_first()[j]] < b by {
            assert(ids.drop_first()[j] == ids[j + 1]);
        }
        lemma_sum_within_eq_sum_weights(m, r, ids.drop_first(), f, b);
        assert(sum_within(m, ids, f) == weight_within(m, ids[0], f) + sum_within(
            m,
            ids.drop_first(),
            f,
        ));
        assert(sum_weights(m, ids) == spec_weight(m, ids[0]) + sum_weights(m, ids.drop_first()));
    }
}

/// A sum over a list extended by one element.
proof fn lemma_sum_within_snoc(
    m: Map<Seq<char>, TransactionView>,
    ids: Seq<Seq<char>>,
    a: Seq<char>,
    fuel: nat,
)
    ensures
        sum_within(m, ids.push(a), fuel) == sum_within(m, ids, fuel) + weight_within(
            m,
            a,
            fuel,
        ),
    decreases ids.len(),
{
    if ids.len() == 0 {
        assert(ids.push(a)[0] == a);
        assert(ids.push(a).drop_first() =~= Seq::<Seq<char>>::empty());
        assert(sum_within(m, ids.push(a), fuel) == weight_within(m, a, fuel) + sum_within(
            m,
            ids.push(a).drop_first(),
            fuel,
        ));
    } else {
        assert(ids.push(a)[0] == ids[0]);
        assert(ids.push(a).drop_first() =~= ids.drop_first().push(a));
        lemma_sum_within_snoc(m, ids.drop_first(), a, fuel);
        assert(sum_within(m, ids.push(a), fuel) == weight_within(m, ids[0], fuel) + sum_within(
            m,
            ids.drop_first().push(a),
            fuel,
        ));
        assert(sum_within(m, ids, fuel) == weight_within(m, ids[0], fuel) + sum_within(
            m,
            ids.drop_first(),
            fuel,
        ));
    }
}

/// A rank witness is a property of the ledger's structure alone.
proof fn lemma_rank_congruent(
    m1: Map<Seq<char>, TransactionView>,
    m2: Map<Seq<char>, TransactionView>,
    r: Map<Seq<char>, nat>,
)
    requires
        same_structure(m1, m2),
        rank_ok(m2, r),
        rank_bounded(m2, r),
    ensures
        rank_ok(m1, r),
        rank_bounded(m1, r),
{
    assert forall|k: Seq<char>, j: int|
        m1.contains_key(k) && 0 <= j < m1[k].approves.len() && m1.contains_key(
            #[trigger] m1[k].approves[j],
        ) implies r[m1[k].approves[j]] < r[k] by {
        assert(m2.contains_key(k));
        assert(m1[k].approves == m2[k].approves);
        assert(m2.contains_key(m2[k].approves[j]));
    }
    assert forall|k: Seq<char>| #[trigger] m1.contains_key(k) implies r[k] < m1.dom().len() by {
        assert(m2.contains_key(k));
    }
}

/// An absent identifier weighs nothing.
pub proof fn lemma_weight_of_absent(m: Map<Seq<char>, TransactionView>, k: Seq<char>)
    requires
        !m.contains_key(k),
    ensures
        spec_weight(m, k) == 0,
{
}

/// A record with no approvals weighs exactly 1: itself.
pub proof fn lemma_weight_of_genesis(m: Map<Seq<char>, TransactionView>, k: Seq<char>)
    requires
        m.contains_key(k),
        m[k].approves.len() == 0,
    ensures
        spec_weight(m, k) == 1,
{
}

/// The weight formula: a present record weighs 1 plus the sum of the
/// weights of the identifiers it approves, where unresolved approvals
/// contribute 0 (`lemma_weight_of_absent`).
pub proof fn lemma_weight_formula(m: Map<Seq<char>, TransactionView>, k: Seq<char>)
    requires
        acyclic(m),
        m.contains_key(k),
    ensures
        spec_weight(m, k) == 1 + sum_weights(m, m[k].approves),
{
    let r = choose|r: Map<Seq<char>, nat>| rank_ok(m, r) && rank_bounded(m, r);
    let ln = m.dom().len();
    assert(r[k] < ln);
    assert(spec_weight(m, k) == 1 + sum_within(m, m[k].approves, (ln - 1) as nat));
    assert forall|j: int|
        0 <= j < m[k].approves.len() && m.contains_key(#[trigger] m[k].approves[j])
        implies r[m[k].approves[j]] < r[k] by {}
    lemma_sum_within_eq_sum_weights(m, r, m[k].approves, (ln - 1) as nat, r[k]);
}

/// The empty ledger is acyclic.
pub proof fn lemma_empty_acyclic()
    ensures
        acyclic(Map::<Seq<char>, TransactionView>::empty()),
{
    let r = Map::<Seq<char>, nat>::empty();
    assert(rank_ok(Map::<Seq<char>, TransactionView>::empty(), r));
    assert(rank_bounded(Map::<Seq<char>, TransactionView>::empty(), r));
}

/// Inserting a record under a fresh identifier that no present record
/// approves, and that does not approve itself, keeps the ledger acyclic:
/// new records may point backwards only, so no cycle can form.
pub proof fn lemma_insert_preserves_acyclic(
    m: Map<Seq<char>, TransactionView>,
    k: Seq<char>,
    tv: TransactionView,
)
    requires
        m.dom().finite(),
        acyclic(m),
        !m.contains_key(k),
        forall|x: Seq<char>, j: int|
            m.contains_key(x) && 0 <= j < m[x].approves.len() ==> #[trigger] m[x].approves[j]
                != k,
        forall|j: int| 0 <= j < tv.approves.len() ==> #[trigger] tv.approves[j] != k,
    ensures
        acyclic(m.insert(k, tv)),
{
    let r = choose|r: Map<Seq<char>, nat>| rank_ok(m, r) && rank_bounded(m, r);
    let m2 = m.insert(k, tv);
    let r2 = r.insert(k, m.dom().len());
    assert(m2.dom() =~= m.dom().insert(k));
    assert(m2.dom().len() == m.dom().len() + 1) by {
        vstd::set::axiom_set_insert_len(m.dom(), k);
    }
    assert forall|x: Seq<char>, j: int|
        m2.contains_key(x) && 0 <= j < m2[x].approves.len() && m2.contains_key(
            #[trigger] m2[x].approves[j],
        ) implies r2[m2[x].approves[j]] < r2[x] by {
        let a = m2[x].approves[j];
        if x == k {
            assert(a != k);
            assert(m.contains_key(a));
            assert(r2[a] == r[a] && r[a] < m.dom().len());
        } else {
            assert(m.contains_key(x));
            assert(m2[x] == m[x]);
            assert(a != k);
            assert(m.contains_key(a));
        }
    }
    assert forall|x: Seq<char>| #[trigger] m2.contains_key(x) implies r2[x] < m2.dom().len() by {
        if x != k {
            assert(m.contains_key(x));
        }
    }
    assert(rank_ok(m2, r2) && rank_bounded(m2, r2));
}

/// The ledger graph: owns the record set and the counter that disambiguates
/// identifiers minted under identical clock readings.
pub struct DAG {
    transactions: Vec<Transaction>,
    counter: u64,
}

impl View for DAG {
    type V = Map<Seq<char>, TransactionView>;

    closed spec fn view(&self) -> Map<Seq<char>, TransactionView> {
        map_of(self.transactions@)
    }
}

impl DAG {
    /// How many identifiers this ledger has minted so far.
    pub closed spec fn counter_val(self) -> nat {
        self.counter as nat
    }

    /// The ledger's structural invariant: record identifiers are pairwise
    /// distinct, and each was minted with a counter value below the current
    /// one, so the next minted identifier collides with none of them.
    pub closed spec fn wf(self) -> bool {
        &&& distinct_ids(self.transactions@)
        &&& forall|i: int|
            0 <= i < self.transactions@.len() ==> is_minted(
                #[trigger] self.transactions@[i].id@,
                self.counter as nat,
            )
    }

    /// Creates an empty ledger.
    pub fn new() -> (d: DAG)
        ensures
            d.wf(),
            d@ == Map::<Seq<char>, TransactionView>::empty(),
            d.counter_val() == 0,
    {
        DAG { transactions: Vec::new(), counter: 0 }
    }

    /// The index of the record carrying `id`, if one is present.
    fn find_index(&self, id: &String) -> (r: Option<usize>)
        ensures
            match r {
                Some(i) => i < self.transactions@.len() && self.transactions@[i as int].id@
                    == id@,
                None => forall|i: int|
                    0 <= i < self.transactions@.len() ==> self.transactions@[i].id@ != id@,
            },
    {
        let mut i: usize = 0;
        while i < self.transactions.len()
            invariant
                i <= self.transactions@.len(),
                forall|j: int| 0 <= j < i ==> self.transactions@[j].id@ != id@,
            decreases self.transactions@.len() - i,
        {
            if self.transactions[i].id == *id {
                return Some(i);
            }
            i = i + 1;
        }
        None
    }

    /// Whether a record carrying `id` is present in the ledger.
    pub fn contains_transaction(&self, id: &String) -> (present: bool)
        ensures
            present == self@.contains_key(id@),
    {
        proof {
            lemma_map_of_contains(self.transactions@, id@);
        }
        match self.find_index(id) {
            Some(_) => true,
            None => false,
        }
    }

    /// The record carrying `id`, if one is present.
    pub fn get_transaction(&self, id: &String) -> (r: Option<&Transaction>)
        requires
            self.wf(),
        ensures
            match r {
                Some(t) => self@.contains_key(id@) && t@ == self@[id@] && t.id@ == id@,
                None => !self@.contains_key(id@),
            },
    {
        proof {
            lemma_map_of_contains(self.transactions@, id@);
        }
        match self.find_index(id) {
            Some(i) => {
                proof {
                    lemma_map_of_index(self.transactions@, i as int);
                }
                Some(&self.transactions[i])
            },
            None => None,
        }
    }

    /// How many records the ledger holds.
    pub fn transaction_count(&self) -> (n: usize)
        requires
            self.wf(),
        ensures
            n == self@.dom().len(),
    {
        proof {
            lemma_map_of_len(self.transactions@);
        }
        self.transactions.len()
    }

    /// The record at position `i` of the ledger's current internal order.
    /// The order carries no meaning; this only lets a caller walk all
    /// records.
    pub fn transaction_at(&self, i: usize) -> (t: &Transaction)
        requires
            self.wf(),
            i < self@.dom().len(),
        ensures
            self@.contains_key(t.id@),
            t@ == self@[t.id@],
    {
        proof {
            lemma_map_of_len(self.transactions@);
            lemma_map_of_index(self.transactions@, i as int);
        }
        &self.transactions[i]
    }

    /// Whether `id` names a present record all of whose approved identifiers
    /// are present too.  This is a one-hop check: a present record whose
    /// approvals are present is reported valid even if those approvals'
    /// own approvals are broken.
    pub fn validate_transaction(&self, id: &String) -> (valid: bool)
        requires
            self.wf(),
        ensures
            valid == spec_valid(self@, id@),
    {
        proof {
            lemma_map_of_contains(self.transactions@, id@);
        }
        match self.find_index(id) {
            None => false,
            Some(i) => {
                proof {
                    lemma_map_of_index(self.transactions@, i as int);
                }
                let n = self.transactions[i].approves.len();
                let mut j: usize = 0;
                while j < n
                    invariant
                        self.wf(),
                        i < self.transactions@.len(),
                        self.transactions@[i as int].id@ == id@,
                        self@.contains_key(id@),
                        self@[id@] == self.transactions@[i as int]@,
                        n == self.transactions@[i as int].approves@.len(),
                        j <= n,
                        forall|jj: int|
                            0 <= jj < j ==> self@.contains_key(
                                #[trigger] self@[id@].approves[jj],
                            ),
                    decreases n - j,
                {
                    let present = self.contains_transaction(&self.transactions[i].approves[j]);
                    if !present {
                        proof {
                            assert(self@[id@].approves[j as int] == self.transactions@[i as int]
                                .approves@[j as int]@);
                        }
                        return false;
                    }
                    proof {
                        assert(self@[id@].approves[j as int] == self.transactions@[i as int]
                            .approves@[j as int]@);
                    }
                    j = j + 1;
                }
                true
            },
        }
    }

    /// Cascading invalidation.  A no-op when `id` is valid; otherwise
    /// removes the record named `id` (if present) and every record that
    /// approved it, directly or transitively: a record that approved a
    /// removed record carries a dangling reference and is itself broken.
    pub fn remove_invalid_transaction(&mut self, id: &String)
        requires
            old(self).wf(),
        ensures
            final(self).wf(),
            final(self).counter_val() == old(self).counter_val(),
            final(self)@ == cascade_post(old(self)@, id@),
    {
        if self.validate_transaction(id) {
            return;
        }
        let ghost m0 = old(self)@;
        let ghost tgt = id@;
        proof {
            assert(reaches_within(m0, tgt, tgt, 0));
            assert(reaches(m0, tgt, tgt));
        }
        match self.find_index(id) {
            Some(i) => {
                proof {
                    lemma_map_of_index(self.transactions@, i as int);
                    lemma_map_of_remove(self.transactions@, i as int);
                }
                let _removed = self.transactions.remove(i);
            },
            None => {
                proof {
                    lemma_map_of_contains(self.transactions@, tgt);
                    assert(self@ =~= m0.remove(tgt));
                }
            },
        }
        let mut pending: Vec<String> = Vec::new();
        pending.push(id.clone());
        proof {
            assert(pending@[0]@ == tgt);
            assert(self@ =~= m0.remove(tgt));
            assert forall|x: int, j: int|
                0 <= x < self.transactions@.len() && 0 <= j < self.transactions@[x].approves@.len()
                    && is_gone(m0, self@, #[trigger] self.transactions@[x].approves@[j]@, tgt)
                implies pending_has(pending@, self.transactions@[x].approves@[j]@) by {
                let a = self.transactions@[x].approves@[j]@;
                assert(a == tgt);
                assert(pending@[0]@ == a);
            }
        }
        while pending.len() > 0
            invariant
                self.wf(),
                self.counter == old(self).counter,
                subledger(self@, m0),
                removals_reach(m0, self@, tgt),
                !self@.contains_key(tgt),
                forall|p: int|
                    0 <= p < pending@.len() ==> is_gone(m0, self@, #[trigger] pending@[p]@, tgt)
                        && reaches(m0, pending@[p]@, tgt),
                edges_covered(self.transactions@, pending@, m0, self@, tgt),
            decreases self.transactions@.len(), pending@.len(),
        {
            let ghost entry_len = self.transactions@.len();
            let ghost entry_pend = pending@;
            let ghost entry_plen = pending@.len();
            let cur = match pending.pop() {
                Some(c) => c,
                None => {
                    proof {
                        assert(false);
                    }
                    return;
                },
            };
            let ghost cur_v = cur@;
            proof {
                assert(cur == entry_pend[entry_plen - 1]);
                assert(is_gone(m0, self@, cur_v, tgt));
                assert(reaches(m0, cur_v, tgt));
                assert forall|p: int|
                    0 <= p < pending@.len() implies is_gone(
                    m0,
                    self@,
                    #[trigger] pending@[p]@,
                    tgt,
                ) && reaches(m0, pending@[p]@, tgt) by {
                    assert(pending@[p] == entry_pend[p]);
                }
                assert forall|x: int, j: int|
                    0 <= x < self.transactions@.len() && 0 <= j
                        < self.transactions@[x].approves@.len() && is_gone(
                        m0,
                        self@,
                        #[trigger] self.transactions@[x].approves@[j]@,
                        tgt,
                    ) implies pending_has(pending@, self.transactions@[x].approves@[j]@) || (
                self.transactions@[x].approves@[j]@ == cur_v && x >= 0) by {
                    let a = self.transactions@[x].approves@[j]@;
                    assert(pending_has(entry_pend, a));
                    let p = choose|p: int| 0 <= p < entry_pend.len() && entry_pend[p]@ == a;
                    if p < entry_plen - 1 {
                        assert(pending@[p] == entry_pend[p]);
                        assert(pending_has(pending@, a));
                    } else {
                        assert(a == cur_v);
                    }
                }
            }
            let mut i: usize = 0;
            while i < self.transactions.len()
                invariant
                    self.wf(),
                    self.counter == old(self).counter,
                    subledger(self@, m0),
                    removals_reach(m0, self@, tgt),
                    !self@.contains_key(tgt),
                    forall|p: int|
                        0 <= p < pending@.len() ==> is_gone(
                            m0,
                            self@,
                            #[trigger] pending@[p]@,
                            tgt,
                        ) && reaches(m0, pending@[p]@, tgt),
                    i <= self.transactions@.len(),
                    self.transactions@.len() <= entry_len,
                    self.transactions@.len() + pending@.len() == entry_len + entry_plen - 1,
                    cur@ == cur_v,
                    is_gone(m0, self@, cur_v, tgt),
                    reaches(m0, cur_v, tgt),
                    forall|x: int, j: int|
                        0 <= x < i && 0 <= j < self.transactions@[x].approves@.len()
                            ==> #[trigger] self.transactions@[x].approves@[j]@ != cur_v,
                    forall|x: int, j: int|
                        0 <= x < self.transactions@.len() && 0 <= j
                            < self.transactions@[x].approves@.len() && is_gone(
                            m0,
                            self@,
                            #[trigger] self.transactions@[x].approves@[j]@,
                            tgt,
                        ) ==> pending_has(pending@, self.transactions@[x].approves@[j]@) || (
                        self.transactions@[x].approves@[j]@ == cur_v && x >= i),
                decreases self.transactions@.len() - i,
            {
                let hit = approves_contains(&self.transactions[i].approves, &cur);
                if hit {
                    let ghost txs_before = self.transactions@;
                    let ghost pend_before = pending@;
                    let ghost r = self.transactions@[i as int];
                    proof {
                        lemma_map_of_index(self.transactions@, i as int);
                        assert(self@[r.id@] == r@);
                        assert(m0.contains_key(r.id@) && m0[r.id@] == r@);
                        assert(pending_has(r.approves@, cur_v));
                        let p = choose|p: int|
                            0 <= p < r.approves@.len() && r.approves@[p]@ == cur_v;
                        assert(m0[r.id@].approves[p] == cur_v);
                        assert(reaches(m0, cur_v, tgt));
                        lemma_reaches_step(m0, r.id@, cur_v, tgt);
                        lemma_map_of_remove(self.transactions@, i as int);
                    }
                    let t = self.transactions.remove(i);
                    pending.push(t.id);
                    proof {
                        let txs = self.transactions@;
                        assert(self@ == map_of(txs_before).remove(r.id@));
                        assert(!self@.contains_key(r.id@));
                        assert forall|x: int|
                            0 <= x < txs.len() implies is_minted(
                            #[trigger] txs[x].id@,
                            self.counter as nat,
                        ) by {
                            let xx = if x < i { x } else { x + 1 };
                            assert(txs[x] == txs_before[xx]);
                        }
                        assert(pending@ == pend_before.push(r.id));
                        assert forall|p: int|
                            0 <= p < pending@.len() implies is_gone(
                            m0,
                            self@,
                            #[trigger] pending@[p]@,
                            tgt,
                        ) && reaches(m0, pending@[p]@, tgt) by {
                            if p < pend_before.len() {
                                assert(pending@[p] == pend_before[p]);
                                assert(is_gone(m0, map_of(txs_before), pend_before[p]@, tgt));
                            } else {
                                assert(pending@[p] == r.id);
                            }
                        }
                        assert forall|x: int, j: int|
                            0 <= x < i && 0 <= j < txs[x].approves@.len()
                                implies #[trigger] txs[x].approves@[j]@ != cur_v by {
                            assert(txs[x] == txs_before[x]);
                        }
                        assert forall|x: int, j: int|
                            0 <= x < txs.len() && 0 <= j < txs[x].approves@.len() && is_gone(
                                m0,
                                self@,
                                #[trigger] txs[x].approves@[j]@,
                                tgt,
                            ) implies pending_has(pending@, txs[x].approves@[j]@) || (
                        txs[x].approves@[j]@ == cur_v && x >= i) by {
                            let xx = if x < i { x } else { x + 1 };
                            assert(txs[x] == txs_before[xx]);
                            let a = txs[x].approves@[j]@;
                            if a == r.id@ {
                                assert(pending@[pending@.len() - 1]@ == a);
                                assert(pending_has(pending@, a));
                            } else {
                                assert(self@.contains_key(a) ==> map_of(
                                    txs_before,
                                ).contains_key(a));
                                assert(is_gone(m0, map_of(txs_before), a, tgt));
                                assert(pending_has(pend_before, a) || (a == cur_v && xx >= i));
                                if pending_has(pend_before, a) {
                                    let p = choose|p: int|
                                        0 <= p < pend_before.len() && pend_before[p]@ == a;
                                    assert(pending@[p]@ == a);
                                    assert(pending_has(pending@, a));
                                }
                            }
                        }
                    }
                } else {
                    proof {
                        let txs = self.transactions@;
                        assert forall|x: int, j: int|
                            0 <= x < i + 1 && 0 <= j < txs[x].approves@.len()
                                implies #[trigger] txs[x].approves@[j]@ != cur_v by {
                            if x == i {
                                assert(!pending_has(txs[x].approves@, cur_v));
                            }
                        }
                    }
                    i = i + 1;
                }
            }
            proof {
                let txs = self.transactions@;
                assert forall|x: int, j: int|
                    0 <= x < txs.len() && 0 <= j < txs[x].approves@.len() && is_gone(
                        m0,
                        self@,
                        #[trigger] txs[x].approves@[j]@,
                        tgt,
                    ) implies pending_has(pending@, txs[x].approves@[j]@) by {
                    assert(txs[x].approves@[j]@ != cur_v);
                }
            }
        }
        proof {
            let m = self@;
            assert forall|x: Seq<char>, j: int|
                m.contains_key(x) && 0 <= j < m[x].approves.len() implies !is_gone(
                m0,
                m,
                #[trigger] m[x].approves[j],
                tgt,
            ) by {
                lemma_map_of_contains(self.transactions@, x);
                let idx = choose|idx: int|
                    0 <= idx < self.transactions@.len() && self.transactions@[idx].id@ == x;
                lemma_map_of_index(self.transactions@, idx);
                assert(m[x].approves[j] == self.transactions@[idx].approves@[j]@);
                if is_gone(m0, m, m[x].approves[j], tgt) {
                    assert(pending_has(pending@, self.transactions@[idx].approves@[j]@));
                    assert(false);
                }
            }
            assert forall|k: Seq<char>| #[trigger] m.contains_key(k) implies !reaches(
                m0,
                k,
                tgt,
            ) by {
                if reaches(m0, k, tgt) {
                    let n = choose|n: nat| reaches_within(m0, k, tgt, n);
                    lemma_nothing_left_reaches(m0, m, tgt, k, n);
                }
            }
            assert(m =~= cascaded(m0, tgt));
        }
    }

    /// The fueled weight computation.  `fuel` bounds the recursion depth;
    /// the rank witness in the precondition guarantees the fuel never runs
    /// out at a present record, so the fueled value is the exact weight.
    /// Every record visited gets its freshly computed weight stored.
    fn weight_depth(&mut self, id: &String, fuel: u64) -> (w: u64)
        requires
            old(self).wf(),
            exists|r: Map<Seq<char>, nat>|
                rank_ok(old(self)@, r) && rank_bounded(old(self)@, r) && (
                old(self)@.contains_key(id@) ==> fuel > r[id@]),
            weight_within(old(self)@, id@, fuel as nat) <= u64::MAX,
        ensures
            final(self).wf(),
            final(self).counter_val() == old(self).counter_val(),
            same_structure(final(self)@, old(self)@),
            w as nat == weight_within(old(self)@, id@, fuel as nat),
            forall|k: Seq<char>| #[trigger]
                final(self)@.contains_key(k) ==> final(self)@[k].cumulative_weight == old(
                    self,
                )@[k].cumulative_weight || final(self)@[k].cumulative_weight as nat
                    == spec_weight(old(self)@, k),
            old(self)@.contains_key(id@) ==> final(self)@[id@].cumulative_weight == w,
        decreases fuel,
    {
        let ghost m_0 = old(self)@;
        proof {
            lemma_map_of_contains(self.transactions@, id@);
        }
        let idx = self.find_index(id);
        match idx {
            None => 0,
            Some(i) => {
                proof {
                    lemma_map_of_index(self.transactions@, i as int);
                    let r = choose|r: Map<Seq<char>, nat>|
                        rank_ok(m_0, r) && rank_bounded(m_0, r) && (m_0.contains_key(id@)
                            ==> fuel > r[id@]);
                    assert(fuel > r[id@]);
                }
                let ids = clone_ids(&self.transactions[i].approves);
                let ghost aps = m_0[id@].approves;
                proof {
                    assert(ids@.map_values(|s: String| s@) =~= aps);
                }
                let mut w: u64 = 1;
                let mut j: usize = 0;
                while j < ids.len()
                    invariant
                        self.wf(),
                        self.counter == old(self).counter,
                        same_structure(self@, m_0),
                        m_0.contains_key(id@),
                        aps == m_0[id@].approves,
                        ids@.map_values(|s: String| s@) == aps,
                        j <= ids@.len(),
                        ids@.len() == aps.len(),
                        fuel >= 1,
                        exists|r: Map<Seq<char>, nat>|
                            rank_ok(m_0, r) && rank_bounded(m_0, r) && fuel > r[id@],
                        weight_within(m_0, id@, fuel as nat) <= u64::MAX,
                        w as nat == 1 + sum_within(m_0, aps.take(j as int), (fuel - 1) as nat),
                        forall|k: Seq<char>| #[trigger]
                            self@.contains_key(k) ==> self@[k].cumulative_weight
                                == m_0[k].cumulative_weight || self@[k].cumulative_weight as nat
                                == spec_weight(m_0, k),
                    decreases ids@.len() - j,
                {
                    let ghost m_pre = self@;
                    let ghost a = aps[j as int];
                    proof {
                        let r = choose|r: Map<Seq<char>, nat>|
                            rank_ok(m_0, r) && rank_bounded(m_0, r) && fuel > r[id@];
                        lemma_rank_congruent(m_pre, m_0, r);
                        assert(ids@[j as int]@ == a);
                        if m_pre.contains_key(a) {
                            assert(m_0.contains_key(a));
                            assert(m_0[id@].approves[j as int] == a);
                            assert(r[a] < r[id@]);
                        }
                        assert(rank_ok(m_pre, r) && rank_bounded(m_pre, r) && (
                        m_pre.contains_key(a) ==> (fuel - 1) as u64 > r[a]));
                        lemma_weight_within_congruent(m_pre, m_0, a, (fuel - 1) as nat);
                        lemma_sum_within_split(m_0, aps, (fuel - 1) as nat, j as int);
                        assert(aps.skip(j as int)[0] == a);
                        assert(sum_within(m_0, aps.skip(j as int), (fuel - 1) as nat)
                            == weight_within(m_0, a, (fuel - 1) as nat) + sum_within(
                            m_0,
                            aps.skip(j as int).drop_first(),
                            (fuel - 1) as nat,
                        ));
                        assert(weight_within(m_0, id@, fuel as nat) == 1 + sum_within(
                            m_0,
                            aps,
                            (fuel - 1) as nat,
                        ));
                        assert(weight_within(m_pre, a, (fuel - 1) as nat) <= u64::MAX);
                    }
                    let cw = self.weight_depth(&ids[j], fuel - 1);
                    proof {
                        lemma_weight_within_congruent(m_pre, m_0, a, (fuel - 1) as nat);
                        assert(cw as nat == weight_within(m_0, a, (fuel - 1) as nat));
                        assert(aps.take(j as int + 1) =~= aps.take(j as int).push(a));
                        lemma_sum_within_snoc(m_0, aps.take(j as int), a, (fuel - 1) as nat);
                        lemma_sum_within_split(m_0, aps, (fuel - 1) as nat, j as int + 1);
                        assert(1 + sum_within(m_0, aps.take(j as int + 1), (fuel - 1) as nat)
                            <= weight_within(m_0, id@, fuel as nat));
                        assert forall|k: Seq<char>| #[trigger]
                            self@.contains_key(k) implies self@[k].cumulative_weight
                            == m_0[k].cumulative_weight || self@[k].cumulative_weight as nat
                            == spec_weight(m_0, k) by {
                            assert(m_pre.contains_key(k));
                            lemma_spec_weight_congruent(m_pre, m_0, k);
                        }
                        assert(same_structure(self@, m_0)) by {
                            assert forall|k: Seq<char>| #[trigger]
                                self@.contains_key(k) implies self@[k].approves
                                == m_0[k].approves && self@[k].data == m_0[k].data by {
                                assert(m_pre.contains_key(k));
                            }
                        }
                    }
                    w = w + cw;
                    j = j + 1;
                }
                proof {
                    assert(aps.take(ids@.len() as int) =~= aps);
                    assert(w as nat == weight_within(m_0, id@, fuel as nat));
                    lemma_map_of_contains(self.transactions@, id@);
                    assert(self@.contains_key(id@));
                }
                let i2 = match self.find_index(id) {
                    Some(x) => x,
                    None => {
                        proof {
                            lemma_map_of_contains(self.transactions@, id@);
                            assert(false);
                        }
                        return w;
                    },
                };
                let ghost m_loop = self@;
                let ghost txs_pre = self.transactions@;
                proof {
                    lemma_map_of_index(self.transactions@, i2 as int);
                    lemma_map_of_remove(self.transactions@, i2 as int);
                }
                let mut t = self.transactions.remove(i2);
                let ghost txs_mid = self.transactions@;
                t.cumulative_weight = w;
                self.transactions.push(t);
                proof {
                    lemma_map_of_push(txs_mid, t);
                    assert(self@ == map_of(txs_mid).insert(t.id@, t@));
                    assert(t.id@ == id@);
                    assert(self@ =~= m_loop.insert(id@, t@));
                    lemma_map_of_contains(txs_mid, id@);
                    assert forall|x: int, y: int|
                        0 <= x < y < self.transactions@.len()
                        implies self.transactions@[x].id@ != self.transactions@[y].id@ by {
                        if y < self.transactions@.len() - 1 {
                            assert(self.transactions@[x] == txs_mid[x]);
                            assert(self.transactions@[y] == txs_mid[y]);
                        } else {
                            assert(self.transactions@[x] == txs_mid[x]);
                            assert(txs_mid[x].id@ != id@);
                        }
                    }
                    assert forall|x: int|
                        0 <= x < self.transactions@.len() implies is_minted(
                        #[trigger] self.transactions@[x].id@,
                        self.counter as nat,
                    ) by {
                        if x < self.transactions@.len() - 1 {
                            let xx = if x < i2 { x } else { x + 1 };
                            assert(self.transactions@[x] == txs_mid[x]);
                            assert(txs_mid[x] == txs_pre[xx]);
                            assert(is_minted(txs_pre[xx].id@, self.counter as nat));
                        } else {
                            assert(self.transactions@[x].id@ == txs_pre[i2 as int].id@);
                            assert(is_minted(txs_pre[i2 as int].id@, self.counter as nat));
                        }
                    }
                    assert(same_structure(self@, m_0)) by {
                        assert(self@.dom() =~= m_loop.dom());
                        assert forall|k: Seq<char>| #[trigger]
                            self@.contains_key(k) implies self@[k].approves == m_0[k].approves
                            && self@[k].data == m_0[k].data by {
                            assert(m_loop.contains_key(k));
                            if k != id@ {
                                assert(self@[k] == m_loop[k]);
                            } else {
                                assert(t@.approves == m_loop[id@].approves);
                                assert(t@.data == m_loop[id@].data);
                            }
                        }
                    }
                    let r = choose|r: Map<Seq<char>, nat>|
                        rank_ok(m_0, r) && rank_bounded(m_0, r) && fuel > r[id@];
                    lemma_weight_within_stable(m_0, r, id@, fuel as nat, m_0.dom().len());
                    assert(w as nat == spec_weight(m_0, id@));
                    assert forall|k: Seq<char>| #[trigger]
                        self@.contains_key(k) implies self@[k].cumulative_weight
                        == m_0[k].cumulative_weight || self@[k].cumulative_weight as nat
                        == spec_weight(m_0, k) by {
                        if k != id@ {
                            assert(self@[k] == m_loop[k]);
                            assert(m_loop.contains_key(k));
                        } else {
                            assert(self@[id@].cumulative_weight == w);
                        }
                    }
                }
                w
            },
        }
    }

    /// Recomputes the cumulative weight of `id` from scratch: 1 plus the
    /// weight of every approval, each occurrence counted, where approvals
    /// of absent records contribute 0; an absent `id` weighs 0.  The
    /// result is stored into the record named `id`, and every record
    /// visited along the way has its stored weight rewritten with its own
    /// freshly computed weight; the ledger's records are otherwise
    /// untouched.
    pub fn calculate_cumulative_weight(&mut self, id: &String) -> (w: u64)
        requires
            old(self).wf(),
            acyclic(old(self)@),
            spec_weight(old(self)@, id@) <= u64::MAX,
        ensures
            final(self).wf(),
            final(self).counter_val() == old(self).counter_val(),
            same_structure(final(self)@, old(self)@),
            w as nat == spec_weight(old(self)@, id@),
            forall|k: Seq<char>| #[trigger]
                final(self)@.contains_key(k) ==> final(self)@[k].cumulative_weight == old(
                    self,
                )@[k].cumulative_weight || final(self)@[k].cumulative_weight as nat
                    == spec_weight(old(self)@, k),
            old(self)@.contains_key(id@) ==> final(self)@[id@].cumulative_weight == w,
    {
        let fuel_count = self.transactions.len();
        let fuel: u64 = fuel_count as u64;
        proof {
            lemma_map_of_len(self.transactions@);
            assert(fuel as nat == self@.dom().len());
            let r = choose|r: Map<Seq<char>, nat>| rank_ok(self@, r) && rank_bounded(self@, r);
            assert(rank_ok(self@, r) && rank_bounded(self@, r) && (self@.contains_key(id@)
                ==> fuel > r[id@]));
        }
        self.weight_depth(id, fuel)
    }

    /// Mints a fresh identifier, stores a new record under it with weight 1,
    /// and returns it.  Insertion is permissive: the approved identifiers
    /// need not be present, and validity is established by a separate,
    /// explicit check.
    pub fn add_transaction(&mut self, data: String, approves: Vec<String>) -> (id: String)
        requires
            old(self).wf(),
            old(self).counter_val() < u64::MAX,
        ensures
            final(self).wf(),
            final(self).counter_val() == old(self).counter_val() + 1,
            exists|t: nat| id@ == id_view(t, old(self).counter_val()),
            !old(self)@.contains_key(id@),
            final(self)@ == old(self)@.insert(
                id@,
                TransactionView {
                    data: data@,
                    approves: approves@.map_values(|s: String| s@),
                    cumulative_weight: 1u64,
                },
            ),
    {
        let ghost c0 = self.counter as nat;
        let id = generate_unique_id(self.counter);
        self.counter = self.counter + 1;
        let tx = Transaction { id: id.clone(), data, approves, cumulative_weight: 1 };
        proof {
            let t0 = choose|t: nat| id@ == id_view(t, c0);
            assert forall|i: int| 0 <= i < self.transactions@.len() implies self.transactions@[i].id@
                != id@ by {
                let (t1, c1) = choose|t1: nat, c1: nat|
                    c1 < c0 && self.transactions@[i].id@ == id_view(t1, c1);
                lemma_distinct_counters_distinct_ids(t1, c1, t0, c0);
            }
            lemma_map_of_contains(self.transactions@, id@);
        }
        self.transactions.push(tx);
        proof {
            let txs0 = old(self).transactions@;
            lemma_map_of_push(txs0, tx);
            assert(tx@ == TransactionView {
                data: tx.data@,
                approves: tx.approves@.map_values(|s: String| s@),
                cumulative_weight: 1u64,
            });
            assert forall|i: int| 0 <= i < self.transactions@.len() implies is_minted(
                #[trigger] self.transactions@[i].id@,
                self.counter as nat,
            ) by {
                if i < self.transactions@.len() - 1 {
                    assert(is_minted(self.transactions@[i].id@, c0));
                    let (t1, c1) = choose|t1: nat, c1: nat|
                        c1 < c0 && self.transactions@[i].id@ == id_view(t1, c1);
                    assert(c1 < self.counter as nat);
                    assert(self.transactions@[i].id@ == id_view(t1, c1));
                } else {
                    let t0 = choose|t: nat| id@ == id_view(t, c0);
                    assert(self.transactions@[i].id@ == id_view(t0, c0));
                    assert(c0 < self.counter as nat);
                }
            }
        }
        id
    }
}

} // verus!
