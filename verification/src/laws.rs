//! Laws of the cache, stated once over its specification surface.
//!
//! Each proof here records a guarantee that spans more than one operation,
//! so that a reader finds it stated rather than implied: what a hit serves
//! after an admission, and how an exactly-full cache treats a newcomer.

use crate::cache::{get_result, lemma_remove_all, remove_all, store_outcome};
use crate::counter::peek_spec;
use crate::policy::RejectReason;
use crate::policy::{all_below, evict_before, fits, lemma_victim_prefix_unique, sum_sizes_of,
    victim_prefix};
use vstd::prelude::*;

verus! {

/// Round trip: when `get_or_cache` returns a handle for `p` and leaves `p`
/// resident, its contract states that the resident bytes equal the
/// handle's bytes `b`; an immediate `get` of `p` then serves exactly `b`,
/// byte for byte.
pub proof fn lemma_round_trip(m: Map<Seq<u8>, Seq<u8>>, p: Seq<u8>, b: Seq<u8>)
    requires
        m.contains_key(p),
        m[p] == b,
    ensures
        get_result(m, p) == Some(b),
{
}

/// Displacement demands strictly more: whatever one `store` did, any path
/// that was resident before it and is not after was displaced by the
/// newcomer, and its access count at decision time was strictly below the
/// newcomer's.
pub proof fn lemma_displaced_means_less_demanded(
    m: Map<Seq<u8>, Seq<u8>>,
    used: nat,
    cm: Map<Seq<u8>, u64>,
    cap: nat,
    p: Seq<u8>,
    b: Seq<u8>,
    cnt: u64,
    post_m: Map<Seq<u8>, Seq<u8>>,
    post_used: nat,
    r: Result<(), RejectReason>,
    q: Seq<u8>,
)
    requires
        store_outcome(m, used, cm, cap, p, b, cnt, post_m, post_used, r),
        m.contains_key(q),
        !post_m.contains_key(q),
    ensures
        peek_spec(cm, q) < cnt,
{
    if crate::policy::fits(used, b.len(), cap) {
        assert(post_m.contains_key(q));
    } else if b.len() > cap {
        assert(post_m.contains_key(q));
    } else if exists|v: Seq<Seq<u8>>|
        crate::policy::victim_prefix(m, cm, used + b.len() - cap, v) && crate::policy::all_below(
        cm,
        v,
        cnt,
    ) {
        let v = choose|v: Seq<Seq<u8>>|
            crate::policy::victim_prefix(m, cm, used + b.len() - cap, v)
                && crate::policy::all_below(cm, v, cnt) && post_m == remove_all(m, v).insert(p, b)
                && post_used == used - crate::policy::sum_sizes_of(m, v) - crate::resident::size_of(
                m,
                p,
            ) + b.len();
        lemma_remove_all(m, v);
        assert(q != p);
        assert(v.contains(q));
        let i = choose|i: int| 0 <= i < v.len() && v[i] == q;
        assert(peek_spec(cm, v[i]) < cnt);
    } else {
        assert(post_m.contains_key(q));
    }
}

/// Exact fit: with the byte limit equal to the lone resident file's size,
/// that file may stay resident alone; another file of positive size can
/// never fit beside it, the only possible eviction is exactly that file,
/// and the eviction is acceptable precisely when the newcomer's count
/// strictly exceeds the resident file's.
pub proof fn lemma_exact_fit_exchange(
    m: Map<Seq<u8>, Seq<u8>>,
    cm: Map<Seq<u8>, u64>,
    cap: nat,
    a: Seq<u8>,
    s: nat,
    c: u64,
)
    requires
        m.contains_key(a),
        forall|q: Seq<u8>| #[trigger] m.contains_key(q) ==> q == a,
        m[a].len() == cap,
        1 <= s <= cap,
    ensures
        !fits(cap, s, cap),
        victim_prefix(m, cm, s as int, seq![a]),
        forall|v: Seq<Seq<u8>>| #[trigger] victim_prefix(m, cm, s as int, v) ==> v == seq![a],
        (exists|v: Seq<Seq<u8>>| victim_prefix(m, cm, s as int, v) && all_below(cm, v, c)) <==> (
        peek_spec(cm, a) < c),
{
    let va = seq![a];
    assert(va[0] == a);
    assert(va.last() == a);
    assert(va.contains(a));
    assert(va.drop_last() =~= Seq::<Seq<u8>>::empty());
    assert(sum_sizes_of(m, Seq::<Seq<u8>>::empty()) == 0);
    assert(sum_sizes_of(m, va.drop_last()) == 0);
    assert(sum_sizes_of(m, va) == cap);
    assert(victim_prefix(m, cm, s as int, va)) by {
        assert forall|i: int, q: Seq<u8>|
            0 <= i < va.len() && m.contains_key(q) && !va.contains(q) implies evict_before(
            m,
            cm,
            va[i],
            q,
        ) by {
            assert(q == a);
            assert(false);
        }
    }
    assert forall|v: Seq<Seq<u8>>| #[trigger] victim_prefix(m, cm, s as int, v) implies v == va
        by {
        lemma_victim_prefix_unique(m, cm, s as int, v, va);
    }
    if peek_spec(cm, a) < c {
        assert(all_below(cm, va, c)) by {
            assert(forall|i: int| 0 <= i < va.len() ==> #[trigger] va[i] == a);
        }
    }
    if exists|v: Seq<Seq<u8>>| victim_prefix(m, cm, s as int, v) && all_below(cm, v, c) {
        let v = choose|v: Seq<Seq<u8>>| victim_prefix(m, cm, s as int, v) && all_below(cm, v, c);
        assert(v == va);
        assert(peek_spec(cm, va[0]) < c);
    }
}

} // verus!
