//! The admission policy: a pure decision over the cache's state.
//!
//! Given the resident set, the access counter, the byte limit and a
//! candidate (size and current count), the policy answers: admit as is,
//! admit after evicting a specific list of entries, or reject.  Victims are
//! taken greedily in eviction order: least demanded first, then largest
//! first among the equally demanded, then by path order; the prefix stops
//! as soon as enough bytes are freed.  An eviction is acceptable only when
//! the candidate's count strictly exceeds every victim's count.

use crate::counter::{peek_spec, AccessCounter};
use crate::kv::{kv_has, kv_map, lemma_kv_dom, lemma_kv_index};
use crate::paths::{bytes_lt, clone_bytes, lemma_lex_asymmetric, lemma_lex_irreflexive,
    lemma_lex_total, lemma_lex_transitive, lex_lt};
use crate::resident::{sum_entry_sizes, ResidentSet};
use vstd::prelude::*;

verus! {

/// Why a candidate was not retained.
#[derive(Clone, Copy, Debug, PartialEq, Eq, Structural)]
pub enum RejectReason {
    /// The candidate alone exceeds the configured byte limit.
    TooLarge,
    /// Freeing enough room would evict an entry at least as demanded as
    /// the candidate.
    InsufficientDemand,
}

/// The policy's answer for one candidate.
#[derive(Debug)]
pub enum Decision {
    /// The candidate fits without eviction.
    Admit,
    /// The candidate fits once the listed paths are evicted, in order.
    AdmitAfterEviction(Vec<Vec<u8>>),
    /// The candidate is not retained.
    Reject(RejectReason),
}

/// Eviction order: `a` goes before `b` when `a` is less demanded, or
/// equally demanded but larger, or tied on both and lexicographically
/// earlier.  This is a strict total order on distinct resident paths.
pub open spec fn evict_before(
    m: Map<Seq<u8>, Seq<u8>>,
    cm: Map<Seq<u8>, u64>,
    a: Seq<u8>,
    b: Seq<u8>,
) -> bool {
    ||| peek_spec(cm, a) < peek_spec(cm, b)
    ||| (peek_spec(cm, a) == peek_spec(cm, b) && m[a].len() > m[b].len())
    ||| (peek_spec(cm, a) == peek_spec(cm, b) && m[a].len() == m[b].len() && lex_lt(a, b))
}

/// The total content size the listed paths hold in `m`.
pub open spec fn sum_sizes_of(m: Map<Seq<u8>, Seq<u8>>, v: Seq<Seq<u8>>) -> nat
    decreases v.len(),
{
    if v.len() == 0 {
        0
    } else {
        sum_sizes_of(m, v.drop_last()) + m[v.last()].len()
    }
}

/// The victims the greedy selection produces for a shortfall of `needed`
/// bytes: resident paths forming a prefix of the eviction order, just long
/// enough that their sizes cover the shortfall.
pub open spec fn victim_prefix(
    m: Map<Seq<u8>, Seq<u8>>,
    cm: Map<Seq<u8>, u64>,
    needed: int,
    v: Seq<Seq<u8>>,
) -> bool {
    &&& forall|i: int| 0 <= i < v.len() ==> m.contains_key(#[trigger] v[i])
    &&& forall|i: int, j: int| 0 <= i < j < v.len() ==> #[trigger] evict_before(
        m,
        cm,
        v[i],
        v[j],
    )
    &&& forall|i: int, q: Seq<u8>|
        0 <= i < v.len() && m.contains_key(q) && !v.contains(q) ==> #[trigger] evict_before(
            m,
            cm,
            v[i],
            q,
        )
    &&& sum_sizes_of(m, v) >= needed
    &&& v.len() > 0
    &&& sum_sizes_of(m, v.drop_last()) < needed
}

/// Every listed path is strictly less demanded than the given count.
pub open spec fn all_below(cm: Map<Seq<u8>, u64>, v: Seq<Seq<u8>>, c: u64) -> bool {
    forall|i: int| 0 <= i < v.len() ==> peek_spec(cm, #[trigger] v[i]) < c
}

/// The eviction order never relates a path to itself.
pub proof fn lemma_evict_before_irreflexive(
    m: Map<Seq<u8>, Seq<u8>>,
    cm: Map<Seq<u8>, u64>,
    a: Seq<u8>,
)
    ensures
        !evict_before(m, cm, a, a),
{
    lemma_lex_irreflexive(a);
}

/// The eviction order holds in at most one direction.
pub proof fn lemma_evict_before_asymmetric(
    m: Map<Seq<u8>, Seq<u8>>,
    cm: Map<Seq<u8>, u64>,
    a: Seq<u8>,
    b: Seq<u8>,
)
    requires
        evict_before(m, cm, a, b),
    ensures
        !evict_before(m, cm, b, a),
{
    if evict_before(m, cm, b, a) {
        lemma_lex_asymmetric(a, b);
    }
}

/// Distinct paths are related one way or the other.
pub proof fn lemma_evict_before_total(
    m: Map<Seq<u8>, Seq<u8>>,
    cm: Map<Seq<u8>, u64>,
    a: Seq<u8>,
    b: Seq<u8>,
)
    requires
        a != b,
    ensures
        evict_before(m, cm, a, b) || evict_before(m, cm, b, a),
{
    lemma_lex_total(a, b);
}

/// Summing over a longer prefix of the same list never yields less.
proof fn lemma_sum_sizes_take_le(m: Map<Seq<u8>, Seq<u8>>, v: Seq<Seq<u8>>, a: int, b: int)
    requires
        0 <= a <= b <= v.len(),
    ensures
        sum_sizes_of(m, v.take(a)) <= sum_sizes_of(m, v.take(b)),
    decreases b - a,
{
    if a < b {
        lemma_sum_sizes_take_le(m, v, a, b - 1);
        assert(v.take(b).drop_last() =~= v.take(b - 1));
        assert(sum_sizes_of(m, v.take(b)) == sum_sizes_of(m, v.take(b - 1)) + m[v[b - 1]].len());
    }
}

/// A sorted prefix has no repeated path.
proof fn lemma_prefix_distinct(
    m: Map<Seq<u8>, Seq<u8>>,
    cm: Map<Seq<u8>, u64>,
    needed: int,
    v: Seq<Seq<u8>>,
    i: int,
    j: int,
)
    requires
        victim_prefix(m, cm, needed, v),
        0 <= i < j < v.len(),
    ensures
        v[i] != v[j],
{
    if v[i] == v[j] {
        assert(evict_before(m, cm, v[i], v[j]));
        lemma_evict_before_irreflexive(m, cm, v[i]);
    }
}

/// Two greedy prefixes for the same shortfall agree wherever both are
/// defined.
proof fn lemma_victim_prefix_agree(
    m: Map<Seq<u8>, Seq<u8>>,
    cm: Map<Seq<u8>, u64>,
    needed: int,
    v1: Seq<Seq<u8>>,
    v2: Seq<Seq<u8>>,
    k: int,
)
    requires
        victim_prefix(m, cm, needed, v1),
        victim_prefix(m, cm, needed, v2),
        0 <= k <= v1.len(),
        k <= v2.len(),
        v1.take(k) == v2.take(k),
    ensures
        v1.take(vstd::math::min(v1.len() as int, v2.len() as int)) == v2.take(
            vstd::math::min(v1.len() as int, v2.len() as int),
        ),
    decreases vstd::math::min(v1.len() as int, v2.len() as int) - k,
{
    let m1 = vstd::math::min(v1.len() as int, v2.len() as int);
    if k == m1 {
        assert(v1.take(m1) == v2.take(m1));
    } else {
        let x = v1[k];
        let y = v2[k];
        assert(v1.take(k) =~= v2.take(k));
        assert(forall|l: int| 0 <= l < k ==> v1[l] == #[trigger] v2[l]) by {
            assert(forall|l: int| 0 <= l < k ==> v1.take(k)[l] == v1[l] && v2.take(k)[l]
                == #[trigger] v2[l]);
        }
        if x != y {
            // In both directions the other sequence's element at `k` must
            // come strictly later in the eviction order.
            assert(evict_before(m, cm, y, x)) by {
                if v2.contains(x) {
                    let l = choose|l: int| 0 <= l < v2.len() && v2[l] == x;
                    if l < k {
                        assert(v1[l] == x);
                        lemma_prefix_distinct(m, cm, needed, v1, l, k);
                        assert(false);
                    } else {
                        assert(l > k);
                        assert(evict_before(m, cm, v2[k], v2[l]));
                    }
                } else {
                    assert(m.contains_key(x));
                    assert(evict_before(m, cm, v2[k], x));
                }
            }
            assert(evict_before(m, cm, x, y)) by {
                if v1.contains(y) {
                    let l = choose|l: int| 0 <= l < v1.len() && v1[l] == y;
                    if l < k {
                        assert(v2[l] == y);
                        lemma_prefix_distinct(m, cm, needed, v2, l, k);
                        assert(false);
                    } else {
                        assert(l > k);
                        assert(evict_before(m, cm, v1[k], v1[l]));
                    }
                } else {
                    assert(m.contains_key(y));
                    assert(evict_before(m, cm, v1[k], y));
                }
            }
            lemma_evict_before_asymmetric(m, cm, x, y);
            assert(false);
        }
        assert(v1.take(k + 1) =~= v2.take(k + 1));
        lemma_victim_prefix_agree(m, cm, needed, v1, v2, k + 1);
    }
}

/// The greedy prefix for a given shortfall is unique.
pub proof fn lemma_victim_prefix_unique(
    m: Map<Seq<u8>, Seq<u8>>,
    cm: Map<Seq<u8>, u64>,
    needed: int,
    v1: Seq<Seq<u8>>,
    v2: Seq<Seq<u8>>,
)
    requires
        victim_prefix(m, cm, needed, v1),
        victim_prefix(m, cm, needed, v2),
    ensures
        v1 == v2,
{
    assert(v1.take(0) =~= v2.take(0));
    lemma_victim_prefix_agree(m, cm, needed, v1, v2, 0);
    let m1 = vstd::math::min(v1.len() as int, v2.len() as int);
    if v1.len() < v2.len() {
        assert(v1 =~= v2.take(v1.len() as int));
        lemma_sum_sizes_take_le(m, v2, v1.len() as int, v2.len() - 1);
        assert(v2.take(v2.len() - 1) =~= v2.drop_last());
        assert(false);
    } else if v2.len() < v1.len() {
        assert(v2 =~= v1.take(v2.len() as int));
        lemma_sum_sizes_take_le(m, v1, v2.len() as int, v1.len() - 1);
        assert(v1.take(v1.len() - 1) =~= v1.drop_last());
        assert(false);
    } else {
        assert(v1 =~= v1.take(m1));
        assert(v2 =~= v2.take(m1));
    }
}

/// A snapshot of one resident entry taken while the policy runs.
struct Cand {
    count: u64,
    size: usize,
    path: Vec<u8>,
}

/// The snapshot agrees with the maps it was taken from.
spec fn cand_ok(c: Cand, m: Map<Seq<u8>, Seq<u8>>, cm: Map<Seq<u8>, u64>) -> bool {
    &&& m.contains_key(c.path@)
    &&& c.size == m[c.path@].len()
    &&& c.count == peek_spec(cm, c.path@)
}

/// Eviction order on snapshots.
spec fn cand_before(a: Cand, b: Cand) -> bool {
    ||| a.count < b.count
    ||| (a.count == b.count && a.size > b.size)
    ||| (a.count == b.count && a.size == b.size && lex_lt(a.path@, b.path@))
}

/// The paths of a snapshot list, in order.
spec fn paths_of(s: Seq<Cand>) -> Seq<Seq<u8>> {
    Seq::new(s.len(), |i: int| s[i].path@)
}

/// Whether some snapshot in `s` is for path `q`.
spec fn cands_have(s: Seq<Cand>, q: Seq<u8>) -> bool {
    exists|i: int| 0 <= i < s.len() && s[i].path@ == q
}

/// The total size of the snapshots in `s`.
spec fn sum_cand(s: Seq<Cand>) -> nat
    decreases s.len(),
{
    if s.len() == 0 {
        0
    } else {
        (sum_cand(s.drop_last()) + s.last().size) as nat
    }
}

proof fn lemma_sum_cand_remove(s: Seq<Cand>, i: int)
    requires
        0 <= i < s.len(),
    ensures
        sum_cand(s.remove(i)) + s[i].size == sum_cand(s),
    decreases s.len(),
{
    if i == s.len() - 1 {
        assert(s.remove(i) =~= s.drop_last());
    } else {
        lemma_sum_cand_remove(s.drop_last(), i);
        assert(s.remove(i).drop_last() =~= s.drop_last().remove(i));
        assert(s.remove(i).last() == s.last());
        assert(s.drop_last()[i] == s[i]);
    }
}

proof fn lemma_cand_before_total(a: Cand, b: Cand)
    requires
        a.path@ != b.path@,
    ensures
        cand_before(a, b) || cand_before(b, a),
{
    lemma_lex_total(a.path@, b.path@);
}

proof fn lemma_cand_before_transitive(a: Cand, b: Cand, c: Cand)
    requires
        cand_before(a, b),
        cand_before(b, c),
    ensures
        cand_before(a, c),
{
    if a.count == b.count && b.count == c.count && a.size == b.size && b.size == c.size {
        lemma_lex_transitive(a.path@, b.path@, c.path@);
    }
}

/// Decides the eviction order between two snapshots.
fn cand_lt(a: &Cand, b: &Cand) -> (r: bool)
    ensures
        r == cand_before(*a, *b),
{
    if a.count < b.count {
        true
    } else if a.count > b.count {
        false
    } else if a.size > b.size {
        true
    } else if a.size < b.size {
        false
    } else {
        bytes_lt(&a.path, &b.path)
    }
}

/// Greedily selects the victims for a shortfall of `needed` bytes: the
/// shortest prefix of the residents in eviction order whose sizes cover it.
fn select_victims(resident: &ResidentSet, counter: &AccessCounter, needed: usize) -> (chosen: Vec<
    Cand,
>)
    requires
        resident.wf(),
        counter.wf(),
        1 <= needed <= resident.used(),
    ensures
        victim_prefix(resident@, counter@, needed as int, paths_of(chosen@)),
        forall|j: int| 0 <= j < chosen@.len() ==> cand_ok(#[trigger] chosen@[j], resident@,
        counter@),
{
    let ghost m = resident@;
    let ghost cm = counter@;
    let ghost sv = resident.seq_view();
    proof {
        resident.lemma_view_is_entries();
    }

    // Snapshot every resident entry with its current count.
    let n = resident.len();
    let mut remaining: Vec<Cand> = Vec::new();
    let mut idx: usize = 0;
    while idx < n
        invariant
            resident.wf(),
            counter.wf(),
            m == resident@,
            cm == counter@,
            sv == resident.seq_view(),
            m == kv_map(sv),
            n == sv.len(),
            0 <= idx <= n,
            remaining@.len() == idx,
            forall|j: int| 0 <= j < idx ==> (#[trigger] remaining@[j]).path@ == sv[j].0,
            forall|j: int| 0 <= j < idx ==> cand_ok(#[trigger] remaining@[j], m, cm),
            sum_cand(remaining@) == sum_entry_sizes(sv.take(idx as int)),
        decreases n - idx,
    {
        let p = clone_bytes(resident.path_at(idx));
        let c = counter.peek(&p);
        let s = resident.size_at(idx);
        proof {
            lemma_kv_index(sv, idx as int);
        }
        let ghost pre = remaining@;
        remaining.push(Cand { count: c, size: s, path: p });
        proof {
            assert(remaining@.drop_last() =~= pre);
            assert(sv.take(idx + 1).drop_last() =~= sv.take(idx as int));
            assert(forall|j: int| 0 <= j < idx ==> remaining@[j] == pre[j]);
        }
        idx = idx + 1;
    }
    proof {
        assert(sv.take(n as int) =~= sv);
        lemma_kv_dom(sv);
        assert forall|q: Seq<u8>| #[trigger] m.contains_key(q) implies cands_have(remaining@, q)
            by {
            assert(kv_has(sv, q));
            let j = choose|j: int| 0 <= j < sv.len() && sv[j].0 == q;
            assert(remaining@[j].path@ == q);
        }
        assert forall|i: int, j: int|
            #![trigger remaining@[i], remaining@[j]]
            0 <= i < j < remaining@.len() implies remaining@[i].path@ != remaining@[j].path@ by {
            assert(sv[i].0 != sv[j].0);
        }
    }

    // Move the least entry across until enough bytes are freed.
    let mut chosen: Vec<Cand> = Vec::new();
    let mut freed: usize = 0;
    while freed < needed
        invariant
            resident.wf(),
            counter.wf(),
            m == resident@,
            cm == counter@,
            m == kv_map(resident.seq_view()),
            1 <= needed <= resident.used(),
            forall|j: int| 0 <= j < remaining@.len() ==> cand_ok(#[trigger] remaining@[j], m, cm),
            forall|j: int| 0 <= j < chosen@.len() ==> cand_ok(#[trigger] chosen@[j], m, cm),
            forall|i: int, j: int|
                #![trigger remaining@[i], remaining@[j]]
                0 <= i < j < remaining@.len() ==> remaining@[i].path@ != remaining@[j].path@,
            forall|i: int, j: int|
                #![trigger chosen@[i], remaining@[j]]
                0 <= i < chosen@.len() && 0 <= j < remaining@.len() ==> chosen@[i].path@
                    != remaining@[j].path@,
            forall|q: Seq<u8>| #[trigger] m.contains_key(q) ==> cands_have(chosen@, q)
                || cands_have(remaining@, q),
            forall|i: int, j: int|
                #![trigger chosen@[i], chosen@[j]]
                0 <= i < j < chosen@.len() ==> evict_before(m, cm, chosen@[i].path@,
                chosen@[j].path@),
            forall|i: int, j: int|
                #![trigger chosen@[i], remaining@[j]]
                0 <= i < chosen@.len() && 0 <= j < remaining@.len() ==> evict_before(m, cm,
                chosen@[i].path@, remaining@[j].path@),
            freed == sum_sizes_of(m, paths_of(chosen@)),
            freed + sum_cand(remaining@) == resident.used(),
            chosen@.len() > 0 ==> sum_sizes_of(m, paths_of(chosen@).drop_last()) < needed,
        decreases remaining@.len(),
    {
        proof {
            if remaining@.len() == 0 {
                assert(sum_cand(remaining@) == 0);
                assert(false);
            }
        }
        // Find the least remaining snapshot in eviction order.
        let mut best: usize = 0;
        let mut k: usize = 1;
        while k < remaining.len()
            invariant
                1 <= remaining@.len(),
                best < k <= remaining@.len(),
                forall|i: int, j: int|
                    #![trigger remaining@[i], remaining@[j]]
                    0 <= i < j < remaining@.len() ==> remaining@[i].path@ != remaining@[j].path@,
                forall|j: int| 0 <= j < k && j != best ==> cand_before(
                    remaining@[best as int],
                    #[trigger] remaining@[j],
                ),
            decreases remaining@.len() - k,
        {
            let is_less = cand_lt(&remaining[k], &remaining[best]);
            if is_less {
                proof {
                    assert forall|j: int| 0 <= j < k && j != k as int implies cand_before(
                        remaining@[k as int],
                        #[trigger] remaining@[j],
                    ) by {
                        if j != best {
                            lemma_cand_before_transitive(
                                remaining@[k as int],
                                remaining@[best as int],
                                remaining@[j],
                            );
                        }
                    }
                }
                best = k;
            } else {
                proof {
                    lemma_cand_before_total(remaining@[k as int], remaining@[best as int]);
                }
            }
            k = k + 1;
        }
        let ghost pre_rem = remaining@;
        let ghost pre_cho = chosen@;
        let c = remaining.remove(best);
        proof {
            lemma_sum_cand_remove(pre_rem, best as int);
            assert(freed + c.size <= resident.used());
        }
        freed = freed + c.size;
        chosen.push(c);
        proof {
            assert(forall|j: int| 0 <= j < best ==> remaining@[j] == pre_rem[j]);
            assert(forall|j: int| best <= j < remaining@.len() ==> remaining@[j] == pre_rem[j
                + 1]);
            assert(forall|j: int| 0 <= j < pre_cho.len() ==> chosen@[j] == pre_cho[j]);
            assert(chosen@.last() == pre_rem[best as int]);
            assert(paths_of(chosen@).drop_last() =~= paths_of(pre_cho));
            assert(sum_sizes_of(m, paths_of(chosen@)) == sum_sizes_of(m, paths_of(pre_cho))
                + m[pre_rem[best as int].path@].len());
            // Every resident path still sits in one of the two lists.
            assert forall|q: Seq<u8>| #[trigger] m.contains_key(q) implies cands_have(chosen@, q)
                || cands_have(remaining@, q) by {
                if cands_have(pre_cho, q) {
                    let j = choose|j: int| 0 <= j < pre_cho.len() && pre_cho[j].path@ == q;
                    assert(chosen@[j].path@ == q);
                } else if cands_have(pre_rem, q) {
                    let j = choose|j: int| 0 <= j < pre_rem.len() && pre_rem[j].path@ == q;
                    if j == best {
                        assert(chosen@[chosen@.len() - 1].path@ == q);
                    } else if j < best {
                        assert(remaining@[j].path@ == q);
                    } else {
                        assert(remaining@[j - 1].path@ == q);
                    }
                }
            }
            // The chosen snapshot precedes everything still remaining.
            assert forall|j: int| 0 <= j < remaining@.len() implies evict_before(m, cm,
                chosen@.last().path@, #[trigger] remaining@[j].path@) by {
                let jj = if j < best {
                    j
                } else {
                    j + 1
                };
                assert(remaining@[j] == pre_rem[jj]);
                assert(cand_before(pre_rem[best as int], pre_rem[jj]));
            }
        }
    }
    proof {
        let v = paths_of(chosen@);
        assert(forall|i: int| 0 <= i < v.len() ==> v[i] == (#[trigger] chosen@[i]).path@);
        if chosen@.len() == 0 {
            assert(sum_sizes_of(m, v) == 0);
            assert(false);
        }
        assert forall|i: int, q: Seq<u8>|
            0 <= i < v.len() && m.contains_key(q) && !v.contains(q) implies #[trigger] evict_before(
            m,
            cm,
            v[i],
            q,
        ) by {
            assert(!cands_have(chosen@, q)) by {
                if cands_have(chosen@, q) {
                    let j = choose|j: int| 0 <= j < chosen@.len() && chosen@[j].path@ == q;
                    assert(v[j] == q);
                    assert(v.contains(q));
                }
            }
            assert(cands_have(remaining@, q));
            let j = choose|j: int| 0 <= j < remaining@.len() && remaining@[j].path@ == q;
            assert(evict_before(m, cm, chosen@[i].path@, remaining@[j].path@));
        }
    }
    chosen
}

/// Whether a candidate of `size` bytes fits beside `used` without
/// exceeding `cap`.
pub open spec fn fits(used: nat, size: nat, cap: nat) -> bool {
    used + size <= cap
}

/// What `decide` promises: admission exactly when the candidate fits,
/// rejection as too large exactly when it can never fit, and otherwise
/// either the unique greedy eviction — every victim strictly less demanded
/// than the candidate — or rejection because that eviction would displace
/// an entry at least as demanded.
pub open spec fn decide_post(
    m: Map<Seq<u8>, Seq<u8>>,
    cm: Map<Seq<u8>, u64>,
    used: nat,
    cap: nat,
    size: nat,
    count: u64,
    d: Decision,
) -> bool {
    let needed = used + size - cap;
    &&& (d == Decision::Admit <==> fits(used, size, cap))
    &&& (d == Decision::Reject(RejectReason::TooLarge) <==> !fits(used, size, cap) && size > cap)
    &&& (!fits(used, size, cap) && size <= cap ==> ((d matches Decision::AdmitAfterEviction(v)
        && victim_prefix(m, cm, needed, v.deep_view()) && all_below(cm, v.deep_view(), count)) || (
    d == Decision::Reject(RejectReason::InsufficientDemand) && !(exists|v: Seq<Seq<u8>>|
        victim_prefix(m, cm, needed, v) && all_below(cm, v, count)))))
}

/// Decides whether a candidate of `size` bytes whose access count is
/// `count` may be retained, given the current residents and counter.
pub fn decide(
    resident: &ResidentSet,
    counter: &AccessCounter,
    size_limit: usize,
    size: usize,
    count: u64,
) -> (d: Decision)
    requires
        resident.wf(),
        counter.wf(),
        resident.used() <= size_limit,
    ensures
        decide_post(resident@, counter@, resident.used(), size_limit as nat, size as nat, count,
        d),
{
    let ghost m = resident@;
    let ghost cm = counter@;
    let used = resident.used_bytes();
    if size > size_limit {
        return Decision::Reject(RejectReason::TooLarge);
    }
    if used <= size_limit - size {
        return Decision::Admit;
    }
    let needed = used - (size_limit - size);
    let ghost gneeded = resident.used() + size as nat - size_limit as nat;
    let chosen = select_victims(resident, counter, needed);
    let mut ok = true;
    let mut i: usize = 0;
    while i < chosen.len()
        invariant
            0 <= i <= chosen@.len(),
            ok == (forall|j: int| 0 <= j < i ==> (#[trigger] chosen@[j]).count < count),
        decreases chosen@.len() - i,
    {
        if chosen[i].count >= count {
            ok = false;
        }
        i = i + 1;
    }
    if ok {
        let mut victims: Vec<Vec<u8>> = Vec::new();
        let mut i: usize = 0;
        while i < chosen.len()
            invariant
                0 <= i <= chosen@.len(),
                victims.deep_view() == paths_of(chosen@).take(i as int),
            decreases chosen@.len() - i,
        {
            let ghost pre = victims.deep_view();
            victims.push(clone_bytes(&chosen[i].path));
            proof {
                assert(victims.deep_view() =~~= pre.push(chosen@[i as int].path@));
                assert(victims.deep_view() =~~= paths_of(chosen@).take(i + 1));
            }
            i = i + 1;
        }
        proof {
            assert(victims.deep_view() =~~= paths_of(chosen@));
            assert forall|j: int| 0 <= j < victims.deep_view().len() implies peek_spec(
                cm,
                #[trigger] victims.deep_view()[j],
            ) < count by {
                assert(chosen@[j].count < count);
            }
        }
        Decision::AdmitAfterEviction(victims)
    } else {
        proof {
            let vc = paths_of(chosen@);
            let j = choose|j: int| 0 <= j < chosen@.len() && !((#[trigger] chosen@[j]).count
                < count);
            assert forall|v: Seq<Seq<u8>>| victim_prefix(m, cm, gneeded, v) implies !all_below(
                cm,
                v,
                count,
            ) by {
                lemma_victim_prefix_unique(m, cm, gneeded, v, vc);
                assert(v[j] == chosen@[j].path@);
                assert(peek_spec(cm, v[j]) >= count);
            }
        }
        Decision::Reject(RejectReason::InsufficientDemand)
    }
}

} // verus!
