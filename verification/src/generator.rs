use vstd::prelude::*;

use crate::rng::{rng_below, rng_from_entropy, rng_from_seed};
use crate::token::Token;
use crate::MarkovError;

verus! {

/// The successor states recorded in one association list, as a map from
/// state to occurrence count. A later entry for the same key would shadow
/// an earlier one; the generator keeps keys unique, so no shadowing occurs.
pub open spec fn inner_map<T: Token>(s: Seq<(T, u64)>) -> Map<<T as View>::V, nat>
    decreases s.len(),
{
    if s.len() == 0 {
        Map::empty()
    } else {
        inner_map(s.drop_last()).insert(s.last().0@, s.last().1 as nat)
    }
}

/// The transition model recorded in the outer association list: each state
/// maps to its successor states, each with an occurrence count.
pub open spec fn outer_map<T: Token>(s: Seq<(T, Vec<(T, u64)>)>) -> Map<
    <T as View>::V,
    Map<<T as View>::V, nat>,
>
    decreases s.len(),
{
    if s.len() == 0 {
        Map::empty()
    } else {
        outer_map(s.drop_last()).insert(s.last().0@, inner_map(s.last().1@))
    }
}

/// The sum of the occurrence counts in one association list.
pub open spec fn inner_weight<T: Token>(s: Seq<(T, u64)>) -> nat
    decreases s.len(),
{
    if s.len() == 0 {
        0
    } else {
        inner_weight(s.drop_last()) + s.last().1 as nat
    }
}

/// The sum of all occurrence counts across the whole model.
pub open spec fn outer_weight<T: Token>(s: Seq<(T, Vec<(T, u64)>)>) -> nat
    decreases s.len(),
{
    if s.len() == 0 {
        0
    } else {
        outer_weight(s.drop_last()) + inner_weight(s.last().1@)
    }
}

/// One training step: the occurrence count of the transition `prev -> cur`
/// rises by one, with both entries created first when absent.
pub open spec fn step_model<K>(m: Map<K, Map<K, nat>>, prev: K, cur: K) -> Map<K, Map<K, nat>> {
    let inner = if m.dom().contains(prev) {
        m[prev]
    } else {
        Map::<K, nat>::empty()
    };
    let c: nat = if inner.dom().contains(cur) {
        inner[cur]
    } else {
        0
    };
    m.insert(prev, inner.insert(cur, c + 1))
}

/// The model after recording every consecutive pair among the first `n`
/// tokens of `toks`, in order.
pub open spec fn train_pairs<K>(m: Map<K, Map<K, nat>>, toks: Seq<K>, n: int) -> Map<
    K,
    Map<K, nat>,
>
    decreases n,
{
    if n <= 1 {
        m
    } else {
        step_model(train_pairs(m, toks, n - 1), toks[n - 2], toks[n - 1])
    }
}

/// The model after a whole training pass over `toks`: every consecutive
/// pair is recorded, and the final token is entered as a state with no
/// outgoing transitions when it is not already present.
pub open spec fn trained_model<K>(m: Map<K, Map<K, nat>>, toks: Seq<K>) -> Map<K, Map<K, nat>>
    recommends
        toks.len() > 0,
{
    let paired = train_pairs(m, toks, toks.len() as int);
    if paired.dom().contains(toks.last()) {
        paired
    } else {
        paired.insert(toks.last(), Map::<K, nat>::empty())
    }
}

/// The views of a sequence of tokens, in order.
pub open spec fn views<T: Token>(s: Seq<T>) -> Seq<<T as View>::V> {
    s.map_values(|t: T| t@)
}

/// Recording pairs never removes a state, and enters every token that
/// occurs as the earlier one of a recorded pair.
proof fn lemma_train_pairs_dom<K>(m: Map<K, Map<K, nat>>, toks: Seq<K>, n: int)
    requires
        n <= toks.len(),
    ensures
        forall|k: K|
            m.dom().contains(k) ==> #[trigger] train_pairs(m, toks, n).dom().contains(k),
        forall|i: int| 0 <= i < n - 1 ==> train_pairs(m, toks, n).dom().contains(#[trigger] toks[i]),
    decreases n,
{
    if n > 1 {
        lemma_train_pairs_dom(m, toks, n - 1);
        assert forall|k: K| m.dom().contains(k) implies #[trigger] train_pairs(
            m,
            toks,
            n,
        ).dom().contains(k) by {
            assert(train_pairs(m, toks, n - 1).dom().contains(k));
        }
        assert forall|i: int| 0 <= i < n - 1 implies train_pairs(m, toks, n).dom().contains(
            #[trigger] toks[i],
        ) by {
            if i < n - 2 {
                assert(train_pairs(m, toks, n - 1).dom().contains(toks[i]));
            }
        }
    }
}

/// Every successor state recorded by the pairs of `toks` was already a
/// successor in `m` or is one of the tokens `toks[1..n]`.
proof fn lemma_train_pairs_inner<K>(m: Map<K, Map<K, nat>>, toks: Seq<K>, n: int)
    requires
        n <= toks.len(),
    ensures
        forall|a: K, b: K|
            train_pairs(m, toks, n).dom().contains(a) && #[trigger] train_pairs(
                m,
                toks,
                n,
            )[a].dom().contains(b) ==> (m.dom().contains(a) && m[a].dom().contains(b)) || (exists|
                i: int,
            |
                1 <= i < n && toks[i] == b),
    decreases n,
{
    if n > 1 {
        lemma_train_pairs_inner(m, toks, n - 1);
        let prev = train_pairs(m, toks, n - 1);
        let cur = train_pairs(m, toks, n);
        assert forall|a: K, b: K|
            cur.dom().contains(a) && #[trigger] cur[a].dom().contains(b) implies (m.dom().contains(
            a,
        ) && m[a].dom().contains(b)) || (exists|i: int| 1 <= i < n && toks[i] == b) by {
            if a == toks[n - 2] {
                if b == toks[n - 1] {
                    assert(1 <= n - 1 < n && toks[n - 1] == b);
                } else {
                    assert(prev.dom().contains(a) ==> prev[a].dom().contains(b));
                }
            } else {
                assert(prev.dom().contains(a) && prev[a].dom().contains(b));
            }
        }
    }
}

/// The recorded occurrence count of the transition `a -> b`, zero when it
/// was never recorded.
pub open spec fn count_of<K>(m: Map<K, Map<K, nat>>, a: K, b: K) -> nat {
    if m.dom().contains(a) && m[a].dom().contains(b) {
        m[a][b]
    } else {
        0
    }
}

/// With unique keys, an inner list records exactly as many states as it
/// has entries.
proof fn lemma_inner_map_card<T: Token>(s: Seq<(T, u64)>)
    requires
        forall|p: int, q: int|
            0 <= p < q < s.len() ==> (#[trigger] s[p]).0@ != (#[trigger] s[q]).0@,
    ensures
        inner_map(s).dom().finite(),
        inner_map(s).dom().len() == s.len(),
    decreases s.len(),
{
    if s.len() > 0 {
        lemma_inner_map_card(s.drop_last());
        lemma_inner_map_dom(s.drop_last(), s.last().0@);
        assert(forall|j: int|
            0 <= j < s.len() - 1 ==> (#[trigger] s.drop_last()[j]).0@ != s.last().0@);
    }
}

/// With unique keys, the outer list records exactly as many states as it
/// has entries.
proof fn lemma_outer_map_card<T: Token>(s: Seq<(T, Vec<(T, u64)>)>)
    requires
        forall|p: int, q: int|
            0 <= p < q < s.len() ==> (#[trigger] s[p]).0@ != (#[trigger] s[q]).0@,
    ensures
        outer_map(s).dom().finite(),
        outer_map(s).dom().len() == s.len(),
    decreases s.len(),
{
    if s.len() > 0 {
        lemma_outer_map_card(s.drop_last());
        lemma_outer_map_dom(s.drop_last(), s.last().0@);
        assert(forall|i: int|
            0 <= i < s.len() - 1 ==> (#[trigger] s.drop_last()[i]).0@ != s.last().0@);
    }
}

/// Recording pairs adds no state beyond the tokens that occur as the
/// earlier one of a recorded pair.
proof fn lemma_train_pairs_dom_sub<K>(m: Map<K, Map<K, nat>>, toks: Seq<K>, n: int)
    requires
        n <= toks.len(),
    ensures
        forall|k: K|
            #[trigger] train_pairs(m, toks, n).dom().contains(k) ==> m.dom().contains(k) || exists|
                i: int,
            |
                0 <= i < n - 1 && toks[i] == k,
    decreases n,
{
    if n > 1 {
        lemma_train_pairs_dom_sub(m, toks, n - 1);
        assert forall|k: K| #[trigger] train_pairs(m, toks, n).dom().contains(k) implies m.dom().contains(
            k,
        ) || exists|i: int| 0 <= i < n - 1 && toks[i] == k by {
            if k == toks[n - 2] {
                assert(0 <= n - 2 < n - 1 && toks[n - 2] == k);
            } else {
                assert(train_pairs(m, toks, n - 1).dom().contains(k));
                if !m.dom().contains(k) {
                    let i = choose|i: int| 0 <= i < n - 2 && toks[i] == k;
                    assert(0 <= i < n - 1 && toks[i] == k);
                }
            }
        }
    }
}

/// LAW: the states of a model trained on `toks` are the states it had
/// before together with the tokens of `toks`. With the training
/// operation's own guarantee that every token becomes a state, this pins
/// the state set of a trained model exactly.
pub proof fn lemma_trained_states<K>(m0: Map<K, Map<K, nat>>, toks: Seq<K>, k: K)
    requires
        toks.len() > 0,
        trained_model(m0, toks).dom().contains(k),
    ensures
        m0.dom().contains(k) || exists|i: int| 0 <= i < toks.len() && toks[i] == k,
{
    lemma_train_pairs_dom_sub(m0, toks, toks.len() as int);
    let paired = train_pairs(m0, toks, toks.len() as int);
    if k == toks.last() {
        assert(0 <= toks.len() - 1 < toks.len() && toks[toks.len() - 1] == k);
    } else {
        assert(paired.dom().contains(k));
        if !m0.dom().contains(k) {
            let i = choose|i: int| 0 <= i < toks.len() - 1 && toks[i] == k;
            assert(0 <= i < toks.len() && toks[i] == k);
        }
    }
}

/// LAW: trained from empty on a sequence that repeats one single token,
/// the model can step from that token only to itself; any sampled
/// successor of any state is that token again.
pub proof fn lemma_single_token_chain<K>(toks: Seq<K>, x: K, a: K, b: K)
    requires
        toks.len() > 0,
        forall|i: int| 0 <= i < toks.len() ==> toks[i] == x,
        trained_model(Map::<K, Map<K, nat>>::empty(), toks).dom().contains(a),
        trained_model(Map::<K, Map<K, nat>>::empty(), toks)[a].dom().contains(b),
    ensures
        a == x,
        b == x,
{
    let m0 = Map::<K, Map<K, nat>>::empty();
    let m = trained_model(m0, toks);
    let paired = train_pairs(m0, toks, toks.len() as int);
    lemma_trained_states(m0, toks, a);
    lemma_train_pairs_inner(m0, toks, toks.len() as int);
    if paired.dom().contains(toks.last()) {
        assert(paired[a].dom().contains(b));
    } else {
        if a == toks.last() {
            assert(m[a].dom() =~= Set::<K>::empty());
            assert(false);
        } else {
            assert(paired[a].dom().contains(b));
        }
    }
    let i = choose|i: int| 1 <= i < toks.len() && toks[i] == b;
    assert(toks[i] == x);
}

/// LAW: a state with a lone recorded successor can step only to it: any
/// member of its singleton successor set is that successor.
pub proof fn lemma_single_successor<K>(m: Map<K, Map<K, nat>>, cur: K, x: K, b: K)
    requires
        m.dom().contains(cur),
        m[cur].dom() =~= Set::<K>::empty().insert(x),
        m[cur].dom().contains(b),
    ensures
        b == x,
{
}

/// Every state reachable in one step is itself a state of the model, so a
/// walk over the model never leaves its key set.
pub open spec fn states_closed<K>(m: Map<K, Map<K, nat>>) -> bool {
    forall|a: K, b: K|
        m.dom().contains(a) && #[trigger] m[a].dom().contains(b) ==> m.dom().contains(b)
}

/// Index of the entry whose key denotes the same state as `key`, when one
/// is present in the inner association list.
fn find_entry<T: Token>(s: &Vec<(T, u64)>, key: &T) -> (r: Option<usize>)
    ensures
        match r {
            Some(j) => j < s@.len() && s@[j as int].0@ == key@,
            None => forall|j: int| 0 <= j < s@.len() ==> (#[trigger] s@[j]).0@ != key@,
        },
{
    let mut j: usize = 0;
    while j < s.len()
        invariant
            j <= s@.len(),
            forall|k: int| 0 <= k < j ==> (#[trigger] s@[k]).0@ != key@,
        decreases s@.len() - j,
    {
        if s[j].0.eq_token(key) {
            return Some(j);
        }
        j += 1;
    }
    None
}

/// The sum of the counts of an inner list, computed left to right.
fn inner_total<T: Token>(s: &Vec<(T, u64)>) -> (r: u64)
    requires
        inner_weight(s@) <= u64::MAX,
    ensures
        r == inner_weight(s@),
{
    let mut acc: u64 = 0;
    let mut j: usize = 0;
    proof {
        assert(s@.take(0) =~= Seq::<(T, u64)>::empty());
    }
    while j < s.len()
        invariant
            j <= s@.len(),
            acc == inner_weight(s@.take(j as int)),
            inner_weight(s@) <= u64::MAX,
        decreases s@.len() - j,
    {
        proof {
            lemma_inner_weight_take_step(s@, j as int);
            lemma_inner_weight_take_le(s@, j as int + 1);
        }
        acc = acc + s[j].1;
        j += 1;
    }
    proof {
        assert(s@.take(s@.len() as int) =~= s@);
    }
    acc
}

/// Index of the entry whose key denotes the same state as `key`, when one
/// is present in the outer association list.
fn find_state<T: Token>(s: &Vec<(T, Vec<(T, u64)>)>, key: &T) -> (r: Option<usize>)
    ensures
        match r {
            Some(i) => i < s@.len() && s@[i as int].0@ == key@,
            None => forall|i: int| 0 <= i < s@.len() ==> (#[trigger] s@[i]).0@ != key@,
        },
{
    let mut i: usize = 0;
    while i < s.len()
        invariant
            i <= s@.len(),
            forall|k: int| 0 <= k < i ==> (#[trigger] s@[k]).0@ != key@,
        decreases s@.len() - i,
    {
        if s[i].0.eq_token(key) {
            return Some(i);
        }
        i += 1;
    }
    None
}

/// A state is in the domain of `inner_map` exactly when some entry of the
/// list carries it.
proof fn lemma_inner_map_dom<T: Token>(s: Seq<(T, u64)>, k: <T as View>::V)
    ensures
        inner_map(s).dom().contains(k) <==> exists|j: int|
            0 <= j < s.len() && (#[trigger] s[j]).0@ == k,
    decreases s.len(),
{
    if s.len() > 0 {
        lemma_inner_map_dom(s.drop_last(), k);
        if inner_map(s).dom().contains(k) {
            if s.last().0@ != k {
                let j = choose|j: int| 0 <= j < s.drop_last().len() && (#[trigger] s.drop_last()[j]).0@ == k;
                assert(s[j].0@ == k);
            }
        }
        if exists|j: int| 0 <= j < s.len() && (#[trigger] s[j]).0@ == k {
            let j = choose|j: int| 0 <= j < s.len() && (#[trigger] s[j]).0@ == k;
            if j < s.len() - 1 {
                assert(s.drop_last()[j].0@ == k);
            }
        }
    }
}

/// With unique keys, `inner_map` sends the key of entry `j` to that
/// entry's count.
proof fn lemma_inner_map_index<T: Token>(s: Seq<(T, u64)>, j: int)
    requires
        0 <= j < s.len(),
        forall|p: int, q: int|
            0 <= p < q < s.len() ==> (#[trigger] s[p]).0@ != (#[trigger] s[q]).0@,
    ensures
        inner_map(s).dom().contains(s[j].0@),
        inner_map(s)[s[j].0@] == s[j].1 as nat,
    decreases s.len(),
{
    if j < s.len() - 1 {
        lemma_inner_map_index(s.drop_last(), j);
        assert(s.drop_last()[j] == s[j]);
        assert(s.last().0@ != s[j].0@);
    }
}

/// A state is in the domain of `outer_map` exactly when some entry of the
/// list carries it.
proof fn lemma_outer_map_dom<T: Token>(s: Seq<(T, Vec<(T, u64)>)>, k: <T as View>::V)
    ensures
        outer_map(s).dom().contains(k) <==> exists|i: int|
            0 <= i < s.len() && (#[trigger] s[i]).0@ == k,
    decreases s.len(),
{
    if s.len() > 0 {
        lemma_outer_map_dom(s.drop_last(), k);
        if outer_map(s).dom().contains(k) {
            if s.last().0@ != k {
                let i = choose|i: int| 0 <= i < s.drop_last().len() && (#[trigger] s.drop_last()[i]).0@ == k;
                assert(s[i].0@ == k);
            }
        }
        if exists|i: int| 0 <= i < s.len() && (#[trigger] s[i]).0@ == k {
            let i = choose|i: int| 0 <= i < s.len() && (#[trigger] s[i]).0@ == k;
            if i < s.len() - 1 {
                assert(s.drop_last()[i].0@ == k);
            }
        }
    }
}

/// With unique keys, `outer_map` sends the key of entry `i` to the map of
/// that entry's successor list.
proof fn lemma_outer_map_index<T: Token>(s: Seq<(T, Vec<(T, u64)>)>, i: int)
    requires
        0 <= i < s.len(),
        forall|p: int, q: int|
            0 <= p < q < s.len() ==> (#[trigger] s[p]).0@ != (#[trigger] s[q]).0@,
    ensures
        outer_map(s).dom().contains(s[i].0@),
        outer_map(s)[s[i].0@] == inner_map(s[i].1@),
    decreases s.len(),
{
    if i < s.len() - 1 {
        lemma_outer_map_index(s.drop_last(), i);
        assert(s.drop_last()[i] == s[i]);
        assert(s.last().0@ != s[i].0@);
    }
}

/// Appending an entry to an inner list inserts its state and count.
proof fn lemma_inner_map_push<T: Token>(s: Seq<(T, u64)>, e: (T, u64))
    ensures
        inner_map(s.push(e)) == inner_map(s).insert(e.0@, e.1 as nat),
        inner_weight(s.push(e)) == inner_weight(s) + e.1,
{
    assert(s.push(e).drop_last() =~= s);
    assert(s.push(e).last() == e);
}

/// With unique keys, replacing entry `j` by one for the same state
/// re-inserts that state with the new count.
proof fn lemma_inner_map_update<T: Token>(s: Seq<(T, u64)>, j: int, e: (T, u64))
    requires
        0 <= j < s.len(),
        e.0@ == s[j].0@,
        forall|p: int, q: int|
            0 <= p < q < s.len() ==> (#[trigger] s[p]).0@ != (#[trigger] s[q]).0@,
    ensures
        inner_map(s.update(j, e)) == inner_map(s).insert(s[j].0@, e.1 as nat),
        inner_weight(s.update(j, e)) == inner_weight(s) - s[j].1 + e.1,
    decreases s.len(),
{
    if j == s.len() - 1 {
        assert(s.update(j, e).drop_last() =~= s.drop_last());
        assert(s.update(j, e).last() == e);
        assert(inner_map(s.drop_last()).insert(s[j].0@, s[j].1 as nat).insert(s[j].0@, e.1 as nat)
            =~= inner_map(s.drop_last()).insert(s[j].0@, e.1 as nat));
    } else {
        lemma_inner_map_update(s.drop_last(), j, e);
        assert(s.update(j, e).drop_last() =~= s.drop_last().update(j, e));
        assert(s.update(j, e).last() == s.last());
        assert(s.drop_last()[j] == s[j]);
        assert(s.last().0@ != s[j].0@);
        assert(inner_map(s.drop_last()).insert(s[j].0@, e.1 as nat).insert(
            s.last().0@,
            s.last().1 as nat,
        ) =~= inner_map(s).insert(s[j].0@, e.1 as nat));
    }
}

/// Appending an entry to the outer list inserts its state with the map of
/// its successor list.
proof fn lemma_outer_map_push<T: Token>(s: Seq<(T, Vec<(T, u64)>)>, e: (T, Vec<(T, u64)>))
    ensures
        outer_map(s.push(e)) == outer_map(s).insert(e.0@, inner_map(e.1@)),
        outer_weight(s.push(e)) == outer_weight(s) + inner_weight(e.1@),
{
    assert(s.push(e).drop_last() =~= s);
    assert(s.push(e).last() == e);
}

/// With unique keys, replacing entry `i` by one for the same state
/// re-inserts that state with the map of the new successor list.
proof fn lemma_outer_map_update<T: Token>(
    s: Seq<(T, Vec<(T, u64)>)>,
    i: int,
    e: (T, Vec<(T, u64)>),
)
    requires
        0 <= i < s.len(),
        e.0@ == s[i].0@,
        forall|p: int, q: int|
            0 <= p < q < s.len() ==> (#[trigger] s[p]).0@ != (#[trigger] s[q]).0@,
    ensures
        outer_map(s.update(i, e)) == outer_map(s).insert(s[i].0@, inner_map(e.1@)),
        outer_weight(s.update(i, e)) == outer_weight(s) - inner_weight(s[i].1@) + inner_weight(
            e.1@,
        ),
    decreases s.len(),
{
    if i == s.len() - 1 {
        assert(s.update(i, e).drop_last() =~= s.drop_last());
        assert(s.update(i, e).last() == e);
        assert(outer_map(s.drop_last()).insert(s[i].0@, inner_map(s[i].1@)).insert(
            s[i].0@,
            inner_map(e.1@),
        ) =~= outer_map(s.drop_last()).insert(s[i].0@, inner_map(e.1@)));
    } else {
        lemma_outer_map_update(s.drop_last(), i, e);
        assert(s.update(i, e).drop_last() =~= s.drop_last().update(i, e));
        assert(s.update(i, e).last() == s.last());
        assert(s.drop_last()[i] == s[i]);
        assert(s.last().0@ != s[i].0@);
        assert(outer_map(s.drop_last()).insert(s[i].0@, inner_map(e.1@)).insert(
            s.last().0@,
            inner_map(s.last().1@),
        ) =~= outer_map(s).insert(s[i].0@, inner_map(e.1@)));
    }
}

/// One more entry extends a prefix sum by that entry's count.
proof fn lemma_inner_weight_take_step<T: Token>(s: Seq<(T, u64)>, j: int)
    requires
        0 <= j < s.len(),
    ensures
        inner_weight(s.take(j + 1)) == inner_weight(s.take(j)) + s[j].1,
{
    assert(s.take(j + 1).drop_last() =~= s.take(j));
    assert(s.take(j + 1).last() == s[j]);
}

/// A prefix sum never exceeds the weight of the whole list.
proof fn lemma_inner_weight_take_le<T: Token>(s: Seq<(T, u64)>, j: int)
    requires
        0 <= j <= s.len(),
    ensures
        inner_weight(s.take(j)) <= inner_weight(s),
    decreases s.len() - j,
{
    if j == s.len() {
        assert(s.take(j) =~= s);
    } else {
        lemma_inner_weight_take_step(s, j);
        lemma_inner_weight_take_le(s, j + 1);
    }
}

/// Each count is bounded by the weight of its list.
proof fn lemma_inner_weight_elem<T: Token>(s: Seq<(T, u64)>, j: int)
    requires
        0 <= j < s.len(),
    ensures
        s[j].1 <= inner_weight(s),
    decreases s.len(),
{
    if j < s.len() - 1 {
        lemma_inner_weight_elem(s.drop_last(), j);
        assert(s.drop_last()[j] == s[j]);
    }
}

/// Each inner list's weight is bounded by the weight of the whole model.
proof fn lemma_outer_weight_elem<T: Token>(s: Seq<(T, Vec<(T, u64)>)>, i: int)
    requires
        0 <= i < s.len(),
    ensures
        inner_weight(s[i].1@) <= outer_weight(s),
    decreases s.len(),
{
    if i < s.len() - 1 {
        lemma_outer_weight_elem(s.drop_last(), i);
        assert(s.drop_last()[i] == s[i]);
    }
}

/// The sum of the counts of one listed state's successors.
pub open spec fn listed_inner_weight<K>(s: Seq<(K, nat)>) -> nat
    decreases s.len(),
{
    if s.len() == 0 {
        0
    } else {
        listed_inner_weight(s.drop_last()) + s.last().1
    }
}

/// The sum of all counts over a model given by its ordered entries.
pub open spec fn listed_weight<K>(s: Seq<(K, Seq<(K, nat)>)>) -> nat
    decreases s.len(),
{
    if s.len() == 0 {
        0
    } else {
        listed_weight(s.drop_last()) + listed_inner_weight(s.last().1)
    }
}

/// A listed successor sequence that matches an inner list entry for entry
/// carries the same weight.
proof fn lemma_listed_inner_weight<T: Token>(s: Seq<(T, u64)>, t: Seq<(<T as View>::V, nat)>)
    requires
        t.len() == s.len(),
        forall|j: int| 0 <= j < s.len() ==> t[j] == ((#[trigger] s[j]).0@, s[j].1 as nat),
    ensures
        listed_inner_weight(t) == inner_weight(s),
    decreases s.len(),
{
    if s.len() > 0 {
        lemma_listed_inner_weight(s.drop_last(), t.drop_last());
        assert(t.last() == (s.last().0@, s.last().1 as nat));
    }
}

/// Listed entries that match the stored lists entry for entry carry the
/// same total weight.
proof fn lemma_listed_weight<T: Token>(
    s: Seq<(T, Vec<(T, u64)>)>,
    t: Seq<(<T as View>::V, Seq<(<T as View>::V, nat)>)>,
)
    requires
        t.len() == s.len(),
        forall|i: int|
            0 <= i < s.len() ==> {
                &&& (#[trigger] t[i]).0 == s[i].0@
                &&& t[i].1.len() == s[i].1@.len()
                &&& forall|j: int|
                    0 <= j < s[i].1@.len() ==> (#[trigger] t[i].1[j]) == (
                        s[i].1@[j].0@,
                        s[i].1@[j].1 as nat,
                    )
            },
    ensures
        listed_weight(t) == outer_weight(s),
    decreases s.len(),
{
    if s.len() > 0 {
        lemma_listed_weight(s.drop_last(), t.drop_last());
        lemma_listed_inner_weight(s.last().1@, t.last().1);
    }
}

/// LAW: the ordered entries are a faithful listing of the model: they
/// list exactly the model's states, and under each state exactly its
/// recorded successors with their counts.
pub proof fn lemma_ordered_entries_faithful<T: Token>(g: MarkovGenerator<T>)
    requires
        g.wf(),
    ensures
        g.ordered_entries().len() == g.model().dom().len(),
        forall|i: int|
            0 <= i < g.ordered_entries().len() ==> {
                &&& g.model().dom().contains((#[trigger] g.ordered_entries()[i]).0)
                &&& g.ordered_entries()[i].1.len() == g.model()[g.ordered_entries()[
                    i].0].dom().len()
                &&& forall|j: int|
                    0 <= j < g.ordered_entries()[i].1.len() ==> {
                        &&& g.model()[g.ordered_entries()[i].0].dom().contains(
                            (#[trigger] g.ordered_entries()[i].1[j]).0,
                        )
                        &&& g.model()[g.ordered_entries()[i].0][g.ordered_entries()[i].1[j].0]
                            == g.ordered_entries()[i].1[j].1
                    }
            },
        forall|k: <T as View>::V|
            #[trigger] g.model().dom().contains(k) ==> exists|i: int|
                0 <= i < g.ordered_entries().len() && g.ordered_entries()[i].0 == k,
{
    let ev = g.ordered_entries();
    lemma_outer_map_card(g.map@);
    assert forall|i: int| 0 <= i < ev.len() implies {
        &&& g.model().dom().contains((#[trigger] ev[i]).0)
        &&& ev[i].1.len() == g.model()[ev[i].0].dom().len()
        &&& forall|j: int|
            0 <= j < ev[i].1.len() ==> {
                &&& g.model()[ev[i].0].dom().contains((#[trigger] ev[i].1[j]).0)
                &&& g.model()[ev[i].0][ev[i].1[j].0] == ev[i].1[j].1
            }
    } by {
        lemma_outer_map_index(g.map@, i);
        lemma_inner_map_card(g.map@[i].1@);
        assert(ev[i].0 == g.map@[i].0@);
        assert forall|j: int| 0 <= j < ev[i].1.len() implies {
            &&& g.model()[ev[i].0].dom().contains((#[trigger] ev[i].1[j]).0)
            &&& g.model()[ev[i].0][ev[i].1[j].0] == ev[i].1[j].1
        } by {
            lemma_inner_map_index(g.map@[i].1@, j);
            assert(ev[i].1[j] == (g.map@[i].1@[j].0@, g.map@[i].1@[j].1 as nat));
        }
    }
    assert forall|k: <T as View>::V| #[trigger] g.model().dom().contains(k) implies exists|i: int|
        0 <= i < ev.len() && ev[i].0 == k by {
        lemma_outer_map_dom(g.map@, k);
        let i = choose|i: int| 0 <= i < g.map@.len() && (#[trigger] g.map@[i]).0@ == k;
        assert(0 <= i < ev.len() && ev[i].0 == k);
    }
}

/// LAW: every recorded transition of a well-formed generator has a
/// positive occurrence count.
pub proof fn lemma_counts_positive<T: Token>(
    g: MarkovGenerator<T>,
    a: <T as View>::V,
    b: <T as View>::V,
)
    requires
        g.wf(),
        g.model().dom().contains(a),
        g.model()[a].dom().contains(b),
    ensures
        g.model()[a][b] >= 1,
{
    lemma_outer_map_dom(g.map@, a);
    let i = choose|i: int| 0 <= i < g.map@.len() && (#[trigger] g.map@[i]).0@ == a;
    lemma_outer_map_index(g.map@, i);
    lemma_inner_map_dom(g.map@[i].1@, b);
    let j = choose|j: int| 0 <= j < g.map@[i].1@.len() && (#[trigger] g.map@[i].1@[j]).0@ == b;
    lemma_inner_map_index(g.map@[i].1@, j);
}

/// LAW: the counts recorded across all states of a well-formed generator
/// sum to its transition total.
pub proof fn lemma_counts_sum_to_total<T: Token>(g: MarkovGenerator<T>)
    requires
        g.wf(),
    ensures
        listed_weight(g.ordered_entries()) == g.total(),
{
    lemma_listed_weight(g.map@, g.ordered_entries());
}

/// The character of a single decimal digit.
pub open spec fn digit_char(d: nat) -> char {
    if d == 0 {
        '0'
    } else if d == 1 {
        '1'
    } else if d == 2 {
        '2'
    } else if d == 3 {
        '3'
    } else if d == 4 {
        '4'
    } else if d == 5 {
        '5'
    } else if d == 6 {
        '6'
    } else if d == 7 {
        '7'
    } else if d == 8 {
        '8'
    } else {
        '9'
    }
}

/// The usual decimal rendering of `n`, most significant digit first and
/// without leading zeros.
pub open spec fn decimal_of(n: nat) -> Seq<char>
    decreases n,
{
    if n < 10 {
        seq![digit_char(n)]
    } else {
        decimal_of(n / 10).push(digit_char(n % 10))
    }
}

/// Appends the decimal rendering of `n`.
fn push_decimal(out: &mut String, n: u64)
    ensures
        final(out)@ == old(out)@ + decimal_of(n as nat),
    decreases n,
{
    if n >= 10 {
        push_decimal(out, n / 10);
    }
    let d = n % 10;
    let c: &str = if d == 0 {
        "0"
    } else if d == 1 {
        "1"
    } else if d == 2 {
        "2"
    } else if d == 3 {
        "3"
    } else if d == 4 {
        "4"
    } else if d == 5 {
        "5"
    } else if d == 6 {
        "6"
    } else if d == 7 {
        "7"
    } else if d == 8 {
        "8"
    } else {
        "9"
    };
    proof {
        reveal_strlit("0");
        reveal_strlit("1");
        reveal_strlit("2");
        reveal_strlit("3");
        reveal_strlit("4");
        reveal_strlit("5");
        reveal_strlit("6");
        reveal_strlit("7");
        reveal_strlit("8");
        reveal_strlit("9");
        assert(c@ =~= seq![digit_char((n % 10) as nat)]);
    }
    out.append(c);
    proof {
        if n >= 10 {
            assert(old(out)@ + decimal_of((n / 10) as nat) + c@ =~= old(out)@ + decimal_of(
                n as nat,
            ));
        } else {
            assert(old(out)@ + c@ =~= old(out)@ + decimal_of(n as nat));
        }
    }
}

/// One rendered successor line: the state in quotation marks, then its
/// count.
pub open spec fn render_entry_spec(e: (Seq<char>, nat)) -> Seq<char> {
    "    \""@ + e.0 + "\" : "@ + decimal_of(e.1) + ",\n"@
}

/// The rendered successor lines of one state, in storage order.
pub open spec fn render_entries_spec(s: Seq<(Seq<char>, nat)>) -> Seq<char>
    decreases s.len(),
{
    if s.len() == 0 {
        Seq::empty()
    } else {
        render_entries_spec(s.drop_last()) + render_entry_spec(s.last())
    }
}

/// One rendered state block: the state in quotation marks, then its
/// successor lines.
pub open spec fn render_state_spec(p: (Seq<char>, Seq<(Seq<char>, nat)>)) -> Seq<char> {
    "  \""@ + p.0 + "\" => {\n"@ + render_entries_spec(p.1) + "  },\n"@
}

/// The rendered state blocks of the whole model, in storage order.
pub open spec fn render_states_spec(s: Seq<(Seq<char>, Seq<(Seq<char>, nat)>)>) -> Seq<char>
    decreases s.len(),
{
    if s.len() == 0 {
        Seq::empty()
    } else {
        render_states_spec(s.drop_last()) + render_state_spec(s.last())
    }
}

/// The full rendered dump of a model given by its ordered entries.
pub open spec fn render_spec(s: Seq<(Seq<char>, Seq<(Seq<char>, nat)>)>) -> Seq<char> {
    "MarkovGenerator: {\n"@ + render_states_spec(s) + "}"@
}

/// A first-order Markov chain model over tokens, together with the random
/// source used to sample from it.
pub struct MarkovGenerator<T: Token> {
    map: Vec<(T, Vec<(T, u64)>)>,
    count: u64,
    rng: rand::rngs::StdRng,
}

impl<T: Token> MarkovGenerator<T> {
    /// The abstract transition model held by this generator.
    pub closed spec fn model(self) -> Map<<T as View>::V, Map<<T as View>::V, nat>> {
        outer_map(self.map@)
    }

    /// The total number of transitions recorded over all training passes.
    pub closed spec fn total(self) -> nat {
        self.count as nat
    }

    /// Representation invariant: association-list keys are unique at both
    /// levels, every recorded count is positive, and the counts sum to the
    /// transition total.
    pub closed spec fn wf(self) -> bool {
        &&& forall|i: int, j: int|
            0 <= i < j < self.map@.len() ==> (#[trigger] self.map@[i]).0@ != (
            #[trigger] self.map@[j]).0@
        &&& forall|i: int, p: int, q: int|
            0 <= i < self.map@.len() && 0 <= p < q < self.map@[i].1@.len() ==> (
            #[trigger] self.map@[i].1@[p]).0@ != (#[trigger] self.map@[i].1@[q]).0@
        &&& forall|i: int, j: int|
            0 <= i < self.map@.len() && 0 <= j < self.map@[i].1@.len() ==> (
            #[trigger] self.map@[i].1@[j]).1 >= 1
        &&& outer_weight(self.map@) == self.count
    }

    /// Records one observed transition `prev -> cur`, raising its count by
    /// one and creating the entries first when they are absent.
    fn record_pair(&mut self, prev: &T, cur: &T)
        requires
            old(self).wf(),
            old(self).count < u64::MAX,
        ensures
            final(self).wf(),
            final(self).model() == step_model(old(self).model(), prev@, cur@),
            final(self).total() == old(self).total() + 1,
    {
        let ghost m0 = self.map@;
        self.count = self.count + 1;
        let oi: usize;
        match find_state(&self.map, prev) {
            Some(i) => {
                oi = i;
                proof {
                    lemma_outer_map_index(m0, oi as int);
                }
            },
            None => {
                proof {
                    lemma_outer_map_dom(m0, prev@);
                }
                self.map.push((prev.clone_token(), Vec::new()));
                oi = self.map.len() - 1;
                proof {
                    lemma_outer_map_push(m0, self.map@.last());
                }
            },
        }
        let ghost m1 = self.map@;
        let ghost inner0 = m1[oi as int].1@;
        proof {
            assert(oi < m1.len() && m1[oi as int].0@ == prev@);
            assert(forall|p: int, q: int|
                0 <= p < q < m1.len() ==> (#[trigger] m1[p]).0@ != (#[trigger] m1[q]).0@);
            assert(outer_weight(m1) == outer_weight(m0));
            assert(inner_map(inner0) == (if outer_map(m0).dom().contains(prev@) {
                outer_map(m0)[prev@]
            } else {
                Map::<<T as View>::V, nat>::empty()
            }));
            assert(outer_map(m1) == (if outer_map(m0).dom().contains(prev@) {
                outer_map(m0)
            } else {
                outer_map(m0).insert(prev@, Map::<<T as View>::V, nat>::empty())
            }));
        }
        match find_entry(&self.map[oi].1, cur) {
            Some(j) => {
                let c: u64 = self.map[oi].1[j].1;
                proof {
                    lemma_inner_weight_elem(inner0, j as int);
                    lemma_outer_weight_elem(m1, oi as int);
                    assert(c < u64::MAX);
                    lemma_inner_map_index(inner0, j as int);
                }
                self.map[oi].1[j].1 = c + 1;
                proof {
                    assert(self.map@ =~= m1.update(oi as int, self.map@[oi as int]));
                    assert(self.map@[oi as int].1@ =~= inner0.update(
                        j as int,
                        self.map@[oi as int].1@[j as int],
                    ));
                    lemma_inner_map_update(inner0, j as int, self.map@[oi as int].1@[j as int]);
                    lemma_outer_map_update(m1, oi as int, self.map@[oi as int]);
                    assert(outer_map(self.map@) =~= step_model(outer_map(m0), prev@, cur@));
                }
            },
            None => {
                proof {
                    lemma_inner_map_dom(inner0, cur@);
                }
                self.map[oi].1.push((cur.clone_token(), 1));
                proof {
                    assert(self.map@ =~= m1.update(oi as int, self.map@[oi as int]));
                    assert(self.map@[oi as int].1@ =~= inner0.push(
                        self.map@[oi as int].1@.last(),
                    ));
                    lemma_inner_map_push(inner0, self.map@[oi as int].1@.last());
                    lemma_outer_map_update(m1, oi as int, self.map@[oi as int]);
                    assert(outer_map(self.map@) =~= step_model(outer_map(m0), prev@, cur@));
                }
            },
        }
        proof {
            assert(outer_weight(self.map@) == self.count);
            assert(self.wf());
        }
    }

    /// Trains the model on an ordered token sequence: every consecutive
    /// pair of tokens is recorded as one observed transition, and the final
    /// token is entered as a state even when nothing follows it. An empty
    /// sequence is rejected; afterwards every token of the sequence is a
    /// state of the model.
    pub fn process_all(&mut self, input: &Vec<T>) -> (r: Result<(), MarkovError>)
        requires
            old(self).wf(),
            old(self).total() + input@.len() <= u64::MAX,
        ensures
            final(self).wf(),
            match r {
                Ok(()) => input@.len() > 0 && final(self).model() == trained_model(
                    old(self).model(),
                    views(input@),
                ) && final(self).total() == old(self).total() + input@.len() - 1,
                Err(e) => e == MarkovError::EmptyInput && input@.len() == 0 && final(self).model()
                    == old(self).model() && final(self).total() == old(self).total(),
            },
            forall|i: int|
                0 <= i < input@.len() ==> final(self).model().dom().contains(
                    (#[trigger] input@[i])@,
                ),
            states_closed(old(self).model()) ==> states_closed(final(self).model()),
    {
        if input.len() == 0 {
            return Err(MarkovError::EmptyInput);
        }
        let ghost model0 = self.model();
        let ghost toks = views(input@);
        let ghost c0 = self.count;
        let mut i: usize = 1;
        while i < input.len()
            invariant
                1 <= i <= input@.len(),
                self.wf(),
                self.model() == train_pairs(model0, toks, i as int),
                self.count == c0 + i - 1,
                c0 + input@.len() <= u64::MAX,
                toks == views(input@),
            decreases input@.len() - i,
        {
            self.record_pair(&input[i - 1], &input[i]);
            proof {
                assert(toks[i - 1] == input@[i - 1]@ && toks[i as int] == input@[i as int]@);
            }
            i += 1;
        }
        let ghost paired = train_pairs(model0, toks, toks.len() as int);
        let ghost mseq = self.map@;
        let last = &input[input.len() - 1];
        proof {
            assert(last@ == toks.last());
            lemma_outer_map_dom(mseq, last@);
        }
        match find_state(&self.map, last) {
            Some(_) => {
                proof {
                    assert(self.model().dom().contains(toks.last()));
                    assert(self.model() == trained_model(model0, toks));
                }
            },
            None => {
                self.map.push((last.clone_token(), Vec::new()));
                proof {
                    lemma_outer_map_push(mseq, self.map@.last());
                    assert(self.model() == trained_model(model0, toks));
                }
            },
        }
        proof {
            assert(self.model() == trained_model(model0, toks));
            lemma_train_pairs_dom(model0, toks, toks.len() as int);
            assert forall|i2: int| 0 <= i2 < input@.len() implies self.model().dom().contains(
                (#[trigger] input@[i2])@,
            ) by {
                assert(input@[i2]@ == toks[i2]);
                if i2 < input@.len() - 1 {
                    assert(paired.dom().contains(toks[i2]));
                }
            }
            if states_closed(model0) {
                lemma_train_pairs_inner(model0, toks, toks.len() as int);
                assert forall|a: <T as View>::V, b: <T as View>::V|
                    self.model().dom().contains(a) && #[trigger] self.model()[a].dom().contains(b)
                    implies self.model().dom().contains(b) by {
                    if paired.dom().contains(a) && paired[a].dom().contains(b) {
                        if model0.dom().contains(a) && model0[a].dom().contains(b) {
                            assert(model0.dom().contains(b));
                        }
                    }
                }
            }
        }
        Ok(())
    }

    /// Samples a starting state: one of the model's states, chosen
    /// uniformly at random. Fails exactly when the model has no state.
    pub fn get_random(&mut self) -> (r: Result<T, MarkovError>)
        requires
            old(self).wf(),
        ensures
            final(self).wf(),
            final(self).model() == old(self).model(),
            final(self).total() == old(self).total(),
            match r {
                Ok(t) => old(self).model().dom().contains(t@),
                Err(e) => e == MarkovError::EmptyModel && old(self).model().dom() =~= Set::empty(),
            },
    {
        if self.map.len() == 0 {
            proof {
                assert forall|k: <T as View>::V| !outer_map(self.map@).dom().contains(k) by {
                    lemma_outer_map_dom(self.map@, k);
                }
                assert(outer_map(self.map@).dom() =~= Set::empty());
            }
            return Err(MarkovError::EmptyModel);
        }
        let n = self.map.len();
        let pick = rng_below(&mut self.rng, n as u64);
        let idx = pick as usize;
        proof {
            lemma_outer_map_index(self.map@, idx as int);
        }
        Ok(self.map[idx].0.clone_token())
    }

    /// Samples a successor of `key`, weighted by the recorded occurrence
    /// counts: each recorded successor is drawn with probability equal to
    /// its count over the sum of the counts recorded for `key`. Fails with
    /// `UnknownState` exactly when `key` is not a state of the model, and
    /// with `DeadEnd` exactly when `key` has no recorded successor.
    pub fn get(&mut self, key: &T) -> (r: Result<T, MarkovError>)
        requires
            old(self).wf(),
        ensures
            final(self).wf(),
            final(self).model() == old(self).model(),
            final(self).total() == old(self).total(),
            match r {
                Ok(t) => old(self).model().dom().contains(key@) && old(self).model()[
                    key@].dom().contains(t@),
                Err(e) => {
                    ||| (e == MarkovError::UnknownState && !old(self).model().dom().contains(key@))
                    ||| (e == MarkovError::DeadEnd && old(self).model().dom().contains(key@) && old(
                        self,
                    ).model()[key@].dom() =~= Set::empty())
                },
            },
    {
        let oi: usize;
        match find_state(&self.map, key) {
            Some(i) => {
                oi = i;
            },
            None => {
                proof {
                    lemma_outer_map_dom(self.map@, key@);
                }
                return Err(MarkovError::UnknownState);
            },
        }
        proof {
            lemma_outer_map_index(self.map@, oi as int);
        }
        let ghost entries = self.map@[oi as int].1@;
        if self.map[oi].1.len() == 0 {
            proof {
                assert forall|b: <T as View>::V| !inner_map(entries).dom().contains(b) by {
                    lemma_inner_map_dom(entries, b);
                }
                assert(inner_map(entries).dom() =~= Set::empty());
            }
            return Err(MarkovError::DeadEnd);
        }
        proof {
            lemma_outer_weight_elem(self.map@, oi as int);
            lemma_inner_weight_elem(entries, 0);
        }
        let total = inner_total(&self.map[oi].1);
        let ticket = rng_below(&mut self.rng, total) + 1;
        let mut acc: u64 = 0;
        let mut j: usize = 0;
        proof {
            assert(entries.take(0) =~= Seq::<(T, u64)>::empty());
        }
        while j < self.map[oi].1.len()
            invariant
                old(self).wf(),
                self.map == old(self).map,
                self.count == old(self).count,
                oi < self.map@.len(),
                entries == self.map@[oi as int].1@,
                old(self).model().dom().contains(key@),
                old(self).model()[key@] == inner_map(entries),
                inner_weight(entries) <= u64::MAX,
                j <= entries.len(),
                acc == inner_weight(entries.take(j as int)),
                acc < ticket,
                ticket <= inner_weight(entries),
            decreases entries.len() - j,
        {
            proof {
                lemma_inner_weight_take_step(entries, j as int);
                lemma_inner_weight_take_le(entries, j as int + 1);
            }
            acc = acc + self.map[oi].1[j].1;
            if acc >= ticket {
                proof {
                    lemma_inner_map_dom(entries, entries[j as int].0@);
                }
                return Ok(self.map[oi].1[j].0.clone_token());
            }
            j += 1;
        }
        proof {
            assert(entries.take(entries.len() as int) =~= entries);
            assert(false);
        }
        vstd::pervasive::unreached()
    }

    /// Produces a pseudo-random walk of exactly `n` tokens over a model
    /// whose one-step successors are all states themselves: the walk opens
    /// at a random state, advances by weighted sampling, and restarts from
    /// a fresh random state whenever it reaches a dead end. Fails exactly
    /// when tokens are requested from a model with no state.
    pub fn generate(&mut self, n: usize) -> (r: Result<Vec<T>, MarkovError>)
        requires
            old(self).wf(),
            states_closed(old(self).model()),
        ensures
            final(self).wf(),
            final(self).model() == old(self).model(),
            final(self).total() == old(self).total(),
            match r {
                Ok(v) => {
                    &&& v@.len() == n
                    &&& forall|i: int|
                        0 <= i < v@.len() ==> old(self).model().dom().contains((#[trigger] v@[i])@)
                    &&& forall|i: int|
                        0 <= i < v@.len() - 1 ==> {
                            ||| old(self).model()[(#[trigger] v@[i])@].dom() =~= Set::empty()
                            ||| old(self).model()[(v@[i])@].dom().contains((v@[i + 1])@)
                        }
                },
                Err(e) => e == MarkovError::EmptyModel && n > 0 && old(self).model().dom()
                    =~= Set::empty(),
            },
    {
        let mut out: Vec<T> = Vec::new();
        if n == 0 {
            return Ok(out);
        }
        let mut cur: T;
        match self.get_random() {
            Ok(t) => {
                cur = t;
            },
            Err(e) => {
                return Err(e);
            },
        }
        while out.len() < n
            invariant
                self.wf(),
                self.model() == old(self).model(),
                self.total() == old(self).total(),
                states_closed(old(self).model()),
                out@.len() <= n,
                old(self).model().dom().contains(cur@),
                forall|i: int|
                    0 <= i < out@.len() ==> old(self).model().dom().contains(
                        (#[trigger] out@[i])@,
                    ),
                forall|i: int|
                    0 <= i < out@.len() - 1 ==> {
                        ||| old(self).model()[(#[trigger] out@[i])@].dom() =~= Set::empty()
                        ||| old(self).model()[(out@[i])@].dom().contains((out@[i + 1])@)
                    },
                out@.len() > 0 && out@.len() < n ==> {
                    ||| old(self).model()[(out@.last())@].dom() =~= Set::empty()
                    ||| old(self).model()[(out@.last())@].dom().contains(cur@)
                },
            decreases n - out@.len(),
        {
            out.push(cur.clone_token());
            if out.len() < n {
                match self.get(&cur) {
                    Ok(t) => {
                        cur = t;
                    },
                    Err(_) => {
                        match self.get_random() {
                            Ok(t) => {
                                cur = t;
                            },
                            Err(_) => {
                                proof {
                                    assert(false);
                                }
                                return vstd::pervasive::unreached();
                            },
                        }
                    },
                }
            }
        }
        Ok(out)
    }

    /// The model's contents in storage order: each state with the counts
    /// of its successors. The order is an implementation detail of the
    /// generator and is not otherwise observable.
    pub closed spec fn ordered_entries(self) -> Seq<
        (<T as View>::V, Seq<(<T as View>::V, nat)>),
    > {
        self.map@.map_values(
            |p: (T, Vec<(T, u64)>)| (p.0@, p.1@.map_values(|e: (T, u64)| (e.0@, e.1 as nat))),
        )
    }

    /// The total number of transitions recorded so far.
    pub fn total_transitions(&self) -> (r: u64)
        ensures
            r == self.total(),
    {
        self.count
    }

    /// Whether `t` is a state of the model.
    pub fn contains_state(&self, t: &T) -> (r: bool)
        ensures
            r == self.model().dom().contains(t@),
    {
        proof {
            lemma_outer_map_dom(self.map@, t@);
        }
        match find_state(&self.map, t) {
            Some(_) => true,
            None => false,
        }
    }

    /// The number of states of the model.
    pub fn state_count(&self) -> (r: usize)
        requires
            self.wf(),
        ensures
            r == self.model().dom().len(),
    {
        proof {
            lemma_outer_map_card(self.map@);
        }
        self.map.len()
    }

    /// The recorded occurrence count of the transition `prev -> cur`, zero
    /// when it was never recorded.
    pub fn transition_count(&self, prev: &T, cur: &T) -> (r: u64)
        requires
            self.wf(),
        ensures
            r == count_of(self.model(), prev@, cur@),
    {
        proof {
            lemma_outer_map_dom(self.map@, prev@);
        }
        let oi: usize;
        match find_state(&self.map, prev) {
            Some(i) => {
                oi = i;
            },
            None => {
                return 0;
            },
        }
        proof {
            lemma_outer_map_index(self.map@, oi as int);
            lemma_inner_map_dom(self.map@[oi as int].1@, cur@);
        }
        match find_entry(&self.map[oi].1, cur) {
            Some(j) => {
                proof {
                    lemma_inner_map_index(self.map@[oi as int].1@, j as int);
                }
                self.map[oi].1[j].1
            },
            None => 0,
        }
    }

    /// The number of distinct successor states recorded for `t`, zero when
    /// `t` is not a state of the model.
    pub fn successor_count(&self, t: &T) -> (r: usize)
        requires
            self.wf(),
        ensures
            self.model().dom().contains(t@) ==> r == self.model()[t@].dom().len(),
            !self.model().dom().contains(t@) ==> r == 0,
    {
        proof {
            lemma_outer_map_dom(self.map@, t@);
        }
        match find_state(&self.map, t) {
            Some(i) => {
                proof {
                    lemma_outer_map_index(self.map@, i as int);
                    lemma_inner_map_card(self.map@[i as int].1@);
                }
                self.map[i].1.len()
            },
            None => 0,
        }
    }

    /// Creates an empty generator whose random source is seeded from the
    /// operating system's entropy.
    pub fn new() -> (r: Self)
        ensures
            r.wf(),
            r.model() == Map::<<T as View>::V, Map<<T as View>::V, nat>>::empty(),
            r.total() == 0,
            states_closed(r.model()),
    {
        MarkovGenerator { map: Vec::new(), count: 0, rng: rng_from_entropy() }
    }

    /// Creates an empty generator whose random source is seeded from the
    /// given value, for reproducible sampling.
    pub fn with_seed(seed: u64) -> (r: Self)
        ensures
            r.wf(),
            r.model() == Map::<<T as View>::V, Map<<T as View>::V, nat>>::empty(),
            r.total() == 0,
            states_closed(r.model()),
    {
        MarkovGenerator { map: Vec::new(), count: 0, rng: rng_from_seed(seed) }
    }
}

/// One rendered successor line extends the lines of a prefix.
proof fn lemma_render_entries_take_step(s: Seq<(Seq<char>, nat)>, j: int)
    requires
        0 <= j < s.len(),
    ensures
        render_entries_spec(s.take(j + 1)) == render_entries_spec(s.take(j)) + render_entry_spec(
            s[j],
        ),
{
    assert(s.take(j + 1).drop_last() =~= s.take(j));
    assert(s.take(j + 1).last() == s[j]);
}

/// One rendered state block extends the blocks of a prefix.
proof fn lemma_render_states_take_step(s: Seq<(Seq<char>, Seq<(Seq<char>, nat)>)>, i: int)
    requires
        0 <= i < s.len(),
    ensures
        render_states_spec(s.take(i + 1)) == render_states_spec(s.take(i)) + render_state_spec(
            s[i],
        ),
{
    assert(s.take(i + 1).drop_last() =~= s.take(i));
    assert(s.take(i + 1).last() == s[i]);
}

impl MarkovGenerator<String> {
    /// Renders the transition model as human-readable text for diagnosis:
    /// each state in quotation marks, with every recorded successor and
    /// its count.
    pub fn render(&self) -> (r: String)
        ensures
            r@ == render_spec(self.ordered_entries()),
    {
        let ghost ev = self.ordered_entries();
        let mut out = String::new();
        out.append("MarkovGenerator: {\n");
        proof {
            assert(ev.take(0) =~= Seq::<(Seq<char>, Seq<(Seq<char>, nat)>)>::empty());
            assert(out@ =~= "MarkovGenerator: {\n"@ + render_states_spec(ev.take(0)));
        }
        let mut i: usize = 0;
        while i < self.map.len()
            invariant
                i <= self.map@.len(),
                ev == self.ordered_entries(),
                ev.len() == self.map@.len(),
                out@ == "MarkovGenerator: {\n"@ + render_states_spec(ev.take(i as int)),
            decreases self.map@.len() - i,
        {
            let ghost block_start = out@;
            out.append("  \"");
            out.append(self.map[i].0.as_str());
            out.append("\" => {\n");
            let ghost inner_ev = ev[i as int].1;
            proof {
                assert(inner_ev.take(0) =~= Seq::<(Seq<char>, nat)>::empty());
                assert(ev[i as int].0 == self.map@[i as int].0@);
                assert(out@ =~= block_start + ("  \""@ + ev[i as int].0 + "\" => {\n"@
                    + render_entries_spec(inner_ev.take(0))));
            }
            let mut j: usize = 0;
            while j < self.map[i].1.len()
                invariant
                    i < self.map@.len(),
                    j <= self.map@[i as int].1@.len(),
                    ev == self.ordered_entries(),
                    ev.len() == self.map@.len(),
                    inner_ev == ev[i as int].1,
                    inner_ev.len() == self.map@[i as int].1@.len(),
                    out@ == block_start + ("  \""@ + ev[i as int].0 + "\" => {\n"@
                        + render_entries_spec(inner_ev.take(j as int))),
                decreases self.map@[i as int].1@.len() - j,
            {
                let ghost line_start = out@;
                out.append("    \"");
                out.append(self.map[i].1[j].0.as_str());
                out.append("\" : ");
                push_decimal(&mut out, self.map[i].1[j].1);
                out.append(",\n");
                proof {
                    assert(inner_ev[j as int].0 == self.map@[i as int].1@[j as int].0@);
                    assert(inner_ev[j as int].1 == self.map@[i as int].1@[j as int].1 as nat);
                    assert(out@ =~= line_start + render_entry_spec(inner_ev[j as int]));
                    lemma_render_entries_take_step(inner_ev, j as int);
                    assert(out@ =~= block_start + ("  \""@ + ev[i as int].0 + "\" => {\n"@
                        + render_entries_spec(inner_ev.take(j as int + 1))));
                }
                j += 1;
            }
            out.append("  },\n");
            proof {
                assert(inner_ev.take(inner_ev.len() as int) =~= inner_ev);
                assert(out@ =~= block_start + render_state_spec(ev[i as int]));
                lemma_render_states_take_step(ev, i as int);
                assert(out@ =~= "MarkovGenerator: {\n"@ + render_states_spec(
                    ev.take(i as int + 1),
                ));
            }
            i += 1;
        }
        out.append("}");
        proof {
            assert(ev.take(ev.len() as int) =~= ev);
            assert(out@ =~= render_spec(ev));
        }
        out
    }
}

} // verus!
