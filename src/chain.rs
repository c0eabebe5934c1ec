//! Chains of overlays as mathematical values: what a chain reads for a
//! name, the map it stands for, and the entries an iteration over it yields.

use vstd::prelude::*;
use vstd::set_lib::lemma_len_subset;
use crate::overlay::{
    EntryView, entries_insert, has_key, key_index, keys_unique, layer_get, lemma_entries_insert, lemma_key_index,
};

verus! {

/// The value visible for `k` through a chain of overlays, nearest first: the
/// first overlay that holds `k` decides, and an empty slot hides `k`.
pub open spec fn chain_get(layers: Seq<Seq<EntryView>>, k: Seq<char>) -> Option<Seq<char>>
    decreases layers.len(),
{
    if layers.len() == 0 {
        None
    } else {
        match layer_get(layers[0], k) {
            Some(slot) => slot,
            None => chain_get(layers.drop_first(), k),
        }
    }
}

/// The names visible through a chain.
pub open spec fn visible_keys(layers: Seq<Seq<EntryView>>) -> Set<Seq<char>> {
    Set::new(|k: Seq<char>| chain_get(layers, k) is Some)
}

/// The map that a chain of overlays stands for.
pub open spec fn effective(layers: Seq<Seq<EntryView>>) -> Map<Seq<char>, Seq<char>> {
    Map::new(|k: Seq<char>| chain_get(layers, k) is Some, |k: Seq<char>| chain_get(layers, k)->Some_0)
}

/// The names that an overlay holds.
pub open spec fn layer_keys(s: Seq<EntryView>) -> Set<Seq<char>> {
    s.map_values(|e: EntryView| e.0).to_set()
}

pub(crate) proof fn lemma_layer_keys(s: Seq<EntryView>, k: Seq<char>)
    ensures
        layer_keys(s).contains(k) <==> has_key(s, k),
        layer_keys(s).finite(),
{
    let m = s.map_values(|e: EntryView| e.0);
    m.lemma_to_set_map_commutes(|x: Seq<char>| x);
    vstd::seq_lib::seq_to_set_is_finite(m);
    if has_key(s, k) {
        let i = choose|i: int| 0 <= i < s.len() && s[i].0 == k;
        assert(m[i] == k);
        assert(m.contains(k));
    }
    if m.contains(k) {
        let i = choose|i: int| 0 <= i < m.len() && m[i] == k;
        assert(s[i].0 == k);
    }
}

/// Only finitely many names are visible through a chain.
pub proof fn lemma_visible_finite(layers: Seq<Seq<EntryView>>)
    ensures
        visible_keys(layers).finite(),
    decreases layers.len(),
{
    if layers.len() == 0 {
        assert(visible_keys(layers) =~= Set::<Seq<char>>::empty());
    } else {
        let rest = layers.drop_first();
        lemma_visible_finite(rest);
        let big = layer_keys(layers[0]).union(visible_keys(rest));
        assert forall|k: Seq<char>| visible_keys(layers).contains(k) implies big.contains(k) by {
            lemma_layer_keys(layers[0], k);
            if layer_get(layers[0], k) is Some {
                assert(has_key(layers[0], k));
            }
        }
        lemma_layer_keys(layers[0], Seq::empty());
        lemma_len_subset(visible_keys(layers), big);
    }
}

/// When a chain changes only at `k`, its map is the old one with `k` set to
/// `v`, or removed when `v` is empty, and the number of names visible
/// changes by the change of visibility of `k`.
pub(crate) proof fn lemma_chain_change(a: Seq<Seq<EntryView>>, b: Seq<Seq<EntryView>>, k: Seq<char>, v: Option<Seq<char>>)
    requires
        forall|k2: Seq<char>| #[trigger] chain_get(b, k2) == if k2 == k { v } else { chain_get(a, k2) },
    ensures
        effective(b) == (match v {
            Some(x) => effective(a).insert(k, x),
            None => effective(a).remove(k),
        }),
        visible_keys(b).len() + (if chain_get(a, k) is Some { 1int } else { 0 })
            == visible_keys(a).len() + (if v is Some { 1int } else { 0 }),
{
    lemma_visible_finite(a);
    match v {
        Some(x) => {
            assert(effective(b) =~= effective(a).insert(k, x));
            assert(visible_keys(b) =~= visible_keys(a).insert(k));
        },
        None => {
            assert(effective(b) =~= effective(a).remove(k));
            assert(visible_keys(b) =~= visible_keys(a).remove(k));
        },
    }
}

/// The map `m` with the slot `v` stored under `k`: a value sets it, an empty
/// slot removes it.
pub open spec fn apply_slot(m: Map<Seq<char>, Seq<char>>, k: Seq<char>, v: Option<Seq<char>>) -> Map<Seq<char>, Seq<char>> {
    match v {
        Some(x) => m.insert(k, x),
        None => m.remove(k),
    }
}

/// The map `m` after the stores of `ops`, in order.
pub open spec fn apply_slots(m: Map<Seq<char>, Seq<char>>, ops: Seq<(Seq<char>, Option<Seq<char>>)>) -> Map<Seq<char>, Seq<char>>
    decreases ops.len(),
{
    if ops.len() == 0 {
        m
    } else {
        apply_slots(apply_slot(m, ops[0].0, ops[0].1), ops.drop_first())
    }
}

/// A chain whose nearest overlay received `k` with the slot `v` reads `v`
/// for `k` and as before for every other name.
pub(crate) proof fn lemma_chain_top_insert(a: Seq<Seq<EntryView>>, b: Seq<Seq<EntryView>>, k: Seq<char>, v: Option<Seq<char>>)
    requires
        a.len() > 0,
        b.len() == a.len(),
        keys_unique(a[0]),
        b[0] == entries_insert(a[0], k, v),
        forall|i: int| 1 <= i < a.len() ==> b[i] == a[i],
    ensures
        forall|k2: Seq<char>| #[trigger] chain_get(b, k2) == if k2 == k { v } else { chain_get(a, k2) },
{
    lemma_entries_insert(a[0], k, v);
    assert(b.drop_first() =~= a.drop_first());
    assert forall|k2: Seq<char>| #[trigger] chain_get(b, k2) == if k2 == k { v } else { chain_get(a, k2) } by {
        assert(layer_get(b[0], k2) == if k2 == k { Some(v) } else { layer_get(a[0], k2) });
    }
}

/// A chain with a new overlay on top that holds only `k` with the slot `v`
/// reads `v` for `k` and as before for every other name.
pub(crate) proof fn lemma_chain_push_front(a: Seq<Seq<EntryView>>, k: Seq<char>, v: Option<Seq<char>>)
    ensures
        forall|k2: Seq<char>| #[trigger] chain_get(seq![entries_insert(Seq::empty(), k, v)] + a, k2)
            == if k2 == k { v } else { chain_get(a, k2) },
{
    let top = entries_insert(Seq::empty(), k, v);
    let b = seq![top] + a;
    lemma_entries_insert(Seq::empty(), k, v);
    assert(b.drop_first() =~= a);
    assert forall|k2: Seq<char>| #[trigger] chain_get(b, k2) == if k2 == k { v } else { chain_get(a, k2) } by {
        assert(layer_get(b[0], k2) == if k2 == k { Some(v) } else { layer_get(Seq::<EntryView>::empty(), k2) });
        assert(!has_key(Seq::<EntryView>::empty(), k2));
    }
}

/// Whether no overlay nearer than the `i`-th holds `k`.
pub open spec fn not_shadowed(layers: Seq<Seq<EntryView>>, i: int, k: Seq<char>) -> bool {
    forall|d: int| 0 <= d < i ==> !has_key(#[trigger] layers[d], k)
}

/// Among the first `j` entries of the `i`-th overlay, in order, those that
/// hold a value under a name that no nearer overlay holds.
pub open spec fn level_visible(layers: Seq<Seq<EntryView>>, i: int, j: int) -> Seq<(Seq<char>, Seq<char>)>
    decreases j,
{
    if j <= 0 {
        Seq::empty()
    } else {
        let prev = level_visible(layers, i, j - 1);
        let e = layers[i][j - 1];
        if e.1 is Some && not_shadowed(layers, i, e.0) {
            prev.push((e.0, e.1->Some_0))
        } else {
            prev
        }
    }
}

/// The visible entries of the first `i` overlays, nearest overlay first.
pub open spec fn visible_upto(layers: Seq<Seq<EntryView>>, i: int) -> Seq<(Seq<char>, Seq<char>)>
    decreases i,
{
    if i <= 0 {
        Seq::empty()
    } else {
        visible_upto(layers, i - 1) + level_visible(layers, i - 1, layers[i - 1].len() as int)
    }
}

/// The entries that an iteration over a chain yields, in order.
pub open spec fn visible_entries(layers: Seq<Seq<EntryView>>) -> Seq<(Seq<char>, Seq<char>)> {
    visible_upto(layers, layers.len() as int)
}

/// `p` is how `t` starts.
pub open spec fn is_prefix(p: Seq<(Seq<char>, Seq<char>)>, t: Seq<(Seq<char>, Seq<char>)>) -> bool {
    p.len() <= t.len() && p == t.subrange(0, p.len() as int)
}

pub(crate) proof fn lemma_level_prefix(layers: Seq<Seq<EntryView>>, i: int, j: int, m: int)
    requires
        0 <= j <= m,
    ensures
        is_prefix(level_visible(layers, i, j), level_visible(layers, i, m)),
    decreases m,
{
    if j < m {
        lemma_level_prefix(layers, i, j, m - 1);
        let a = level_visible(layers, i, j);
        let b = level_visible(layers, i, m - 1);
        let c = level_visible(layers, i, m);
        assert(b == c.subrange(0, b.len() as int));
        assert(a =~= c.subrange(0, a.len() as int));
    } else {
        assert(level_visible(layers, i, j) =~= level_visible(layers, i, m).subrange(0, level_visible(layers, i, j).len() as int));
    }
}

pub(crate) proof fn lemma_upto_prefix(layers: Seq<Seq<EntryView>>, i: int, m: int)
    requires
        0 <= i <= m,
    ensures
        is_prefix(visible_upto(layers, i), visible_upto(layers, m)),
    decreases m,
{
    if i < m {
        lemma_upto_prefix(layers, i, m - 1);
        let a = visible_upto(layers, i);
        let b = visible_upto(layers, m - 1);
        let c = visible_upto(layers, m);
        assert(b =~= c.subrange(0, b.len() as int));
        assert(a =~= c.subrange(0, a.len() as int));
    } else {
        assert(visible_upto(layers, i) =~= visible_upto(layers, m).subrange(0, visible_upto(layers, i).len() as int));
    }
}

/// What an iteration has yielded once it stands at entry `j` of overlay `i`
/// is the start of what it yields in all.
pub(crate) proof fn lemma_produced_prefix(layers: Seq<Seq<EntryView>>, i: int, j: int)
    requires
        0 <= i < layers.len(),
        0 <= j <= layers[i].len(),
    ensures
        is_prefix(visible_upto(layers, i) + level_visible(layers, i, j), visible_entries(layers)),
{
    let len_i = layers[i].len() as int;
    lemma_level_prefix(layers, i, j, len_i);
    lemma_upto_prefix(layers, i + 1, layers.len() as int);
    let u = visible_upto(layers, i);
    let p = u + level_visible(layers, i, j);
    let q = visible_upto(layers, i + 1);
    let t = visible_entries(layers);
    assert(q == u + level_visible(layers, i, len_i));
    assert(p =~= q.subrange(0, p.len() as int));
    assert(p =~= t.subrange(0, p.len() as int));
}

/// The `d`-th overlay is the nearest one that holds `k`.
pub open spec fn first_holder(layers: Seq<Seq<EntryView>>, k: Seq<char>, d: int) -> bool {
    0 <= d < layers.len() && has_key(layers[d], k) && not_shadowed(layers, d, k)
}

/// A chain reads for `k` the slot of the nearest overlay that holds `k`.
pub(crate) proof fn lemma_chain_get_first(layers: Seq<Seq<EntryView>>, k: Seq<char>)
    ensures
        forall|d: int| #[trigger] first_holder(layers, k, d) ==> chain_get(layers, k) == layer_get(layers[d], k)->Some_0,
        (forall|d: int| !#[trigger] first_holder(layers, k, d)) ==> chain_get(layers, k) is None,
    decreases layers.len(),
{
    if layers.len() > 0 {
        let rest = layers.drop_first();
        lemma_chain_get_first(rest, k);
        if has_key(layers[0], k) {
            assert(first_holder(layers, k, 0));
            assert forall|d: int| #[trigger] first_holder(layers, k, d) implies d == 0 by {
                if d > 0 {
                    assert(!has_key(layers[0], k));
                }
            }
        } else {
            assert forall|d: int| #[trigger] first_holder(layers, k, d) implies first_holder(rest, k, d - 1) by {
                assert(d != 0);
                assert(rest[d - 1] == layers[d]);
                assert forall|e: int| 0 <= e < d - 1 implies !has_key(#[trigger] rest[e], k) by {
                    assert(rest[e] == layers[e + 1]);
                }
            }
            assert forall|d: int| #[trigger] first_holder(rest, k, d) implies first_holder(layers, k, d + 1) by {
                assert(rest[d] == layers[d + 1]);
                assert forall|e: int| 0 <= e < d + 1 implies !has_key(#[trigger] layers[e], k) by {
                    if e > 0 {
                        assert(rest[e - 1] == layers[e]);
                    }
                }
            }
        }
    }
}

/// The nearest holder of the name of `e` is among the first `i` overlays
/// and holds the value of `e`.
pub open spec fn held_within(layers: Seq<Seq<EntryView>>, e: (Seq<char>, Seq<char>), i: int) -> bool {
    exists|d: int| 0 <= d < i && #[trigger] first_holder(layers, e.0, d) && layer_get(layers[d], e.0) == Some(Some(e.1))
}

/// No name occurs twice among the entries.
pub open spec fn names_distinct(s: Seq<(Seq<char>, Seq<char>)>) -> bool {
    forall|i: int, j: int| 0 <= i < j < s.len() ==> s[i].0 != s[j].0
}

/// What one overlay contributes to an iteration: distinct names that it
/// holds with a value and that no nearer overlay holds, and all of them.
pub(crate) proof fn lemma_level_visible(layers: Seq<Seq<EntryView>>, i: int, j: int)
    requires
        0 <= i < layers.len(),
        0 <= j <= layers[i].len(),
        keys_unique(layers[i]),
    ensures
        names_distinct(level_visible(layers, i, j)),
        forall|x: int| 0 <= x < level_visible(layers, i, j).len() ==> exists|t: int| 0 <= t < j
            && #[trigger] layers[i][t] == ((#[trigger] level_visible(layers, i, j)[x]).0, Some(level_visible(layers, i, j)[x].1))
            && not_shadowed(layers, i, layers[i][t].0),
        forall|t: int| 0 <= t < j && (#[trigger] layers[i][t]).1 is Some && not_shadowed(layers, i, layers[i][t].0)
            ==> level_visible(layers, i, j).contains((layers[i][t].0, layers[i][t].1->Some_0)),
    decreases j,
{
    if j > 0 {
        lemma_level_visible(layers, i, j - 1);
        let prev = level_visible(layers, i, j - 1);
        let cur = level_visible(layers, i, j);
        let e = layers[i][j - 1];
        if e.1 is Some && not_shadowed(layers, i, e.0) {
            assert(cur == prev.push((e.0, e.1->Some_0)));
            assert forall|x: int| 0 <= x < prev.len() implies prev[x].0 != e.0 by {
                let t = choose|t: int| 0 <= t < j - 1 && #[trigger] layers[i][t] == (prev[x].0, Some(prev[x].1))
                    && not_shadowed(layers, i, layers[i][t].0);
                assert(layers[i][t].0 != layers[i][j - 1].0);
            }
            assert forall|x: int| 0 <= x < cur.len() implies exists|t: int| 0 <= t < j
                && #[trigger] layers[i][t] == ((#[trigger] cur[x]).0, Some(cur[x].1))
                && not_shadowed(layers, i, layers[i][t].0) by {
                if x < prev.len() {
                    assert(cur[x] == prev[x]);
                } else {
                    assert(layers[i][j - 1] == (cur[x].0, Some(cur[x].1)));
                }
            }
            assert forall|t: int| 0 <= t < j && (#[trigger] layers[i][t]).1 is Some && not_shadowed(layers, i, layers[i][t].0)
                implies cur.contains((layers[i][t].0, layers[i][t].1->Some_0)) by {
                if t < j - 1 {
                    let x = choose|x: int| 0 <= x < prev.len() && prev[x] == (layers[i][t].0, layers[i][t].1->Some_0);
                    assert(cur[x] == prev[x]);
                } else {
                    assert(cur[prev.len() as int] == (e.0, e.1->Some_0));
                }
            }
        } else {
            assert(cur == prev);
        }
    }
}

/// The iteration over the first `i` overlays yields distinct names, each
/// with the value of its nearest holder, and every name whose nearest
/// holder is among them and holds a value.
pub(crate) proof fn lemma_visible_upto(layers: Seq<Seq<EntryView>>, i: int)
    requires
        0 <= i <= layers.len(),
        forall|d: int| 0 <= d < layers.len() ==> keys_unique(#[trigger] layers[d]),
    ensures
        names_distinct(visible_upto(layers, i)),
        forall|x: int| 0 <= x < visible_upto(layers, i).len() ==> held_within(layers, #[trigger] visible_upto(layers, i)[x], i),
        forall|k: Seq<char>, d: int| 0 <= d < i && #[trigger] first_holder(layers, k, d) && layer_get(layers[d], k)->Some_0 is Some
            ==> visible_upto(layers, i).contains((k, layer_get(layers[d], k)->Some_0->Some_0)),
    decreases i,
{
    if i > 0 {
        lemma_visible_upto(layers, i - 1);
        let l = i - 1;
        let len_l = layers[l].len() as int;
        assert(keys_unique(layers[l]));
        lemma_level_visible(layers, l, len_l);
        let prev = visible_upto(layers, l);
        let lv = level_visible(layers, l, len_l);
        let cur = visible_upto(layers, i);
        assert(cur == prev + lv);
        assert forall|x: int| 0 <= x < visible_upto(layers, i).len() implies held_within(layers, #[trigger] visible_upto(layers, i)[x], i) by {
            if x < prev.len() {
                assert(cur[x] == prev[x]);
                assert(held_within(layers, prev[x], l));
                let d = choose|d: int| 0 <= d < l && #[trigger] first_holder(layers, prev[x].0, d)
                    && layer_get(layers[d], prev[x].0) == Some(Some(prev[x].1));
                assert(0 <= d < i && first_holder(layers, cur[x].0, d));
            } else {
                assert(cur[x] == lv[x - prev.len()]);
                let t = choose|t: int| 0 <= t < len_l
                    && #[trigger] layers[l][t] == ((lv[x - prev.len()]).0, Some(lv[x - prev.len()].1))
                    && not_shadowed(layers, l, layers[l][t].0);
                lemma_key_index_at(layers[l], t);
                assert(first_holder(layers, cur[x].0, l));
            }
        }
        assert forall|a: int, b: int| 0 <= a < b < cur.len() implies cur[a].0 != cur[b].0 by {
            if b < prev.len() {
                assert(cur[a] == prev[a] && cur[b] == prev[b]);
            } else if a >= prev.len() {
                assert(cur[a] == lv[a - prev.len()] && cur[b] == lv[b - prev.len()]);
            } else {
                assert(cur[a] == prev[a] && cur[b] == lv[b - prev.len()]);
                assert(held_within(layers, prev[a], l));
                let d = choose|d: int| 0 <= d < l && #[trigger] first_holder(layers, prev[a].0, d)
                    && layer_get(layers[d], prev[a].0) == Some(Some(prev[a].1));
                let y = b - prev.len();
                let t = choose|t: int| 0 <= t < len_l
                    && #[trigger] layers[l][t] == ((lv[y]).0, Some(lv[y].1))
                    && not_shadowed(layers, l, layers[l][t].0);
                assert(!has_key(layers[d], lv[y].0));
            }
        }
        assert forall|k: Seq<char>, d: int| 0 <= d < i && #[trigger] first_holder(layers, k, d) && layer_get(layers[d], k)->Some_0 is Some
            implies cur.contains((k, layer_get(layers[d], k)->Some_0->Some_0)) by {
            let e = (k, layer_get(layers[d], k)->Some_0->Some_0);
            if d < l {
                let x = choose|x: int| 0 <= x < prev.len() && prev[x] == e;
                assert(cur[x] == prev[x]);
            } else {
                let t = key_index(layers[l], k);
                assert(layers[l][t].0 == k);
                let y = choose|y: int| 0 <= y < lv.len() && lv[y] == (layers[l][t].0, layers[l][t].1->Some_0);
                assert(cur[prev.len() + y] == lv[y]);
            }
        }
    } else {
        assert(visible_upto(layers, i).len() == 0);
    }
}

pub(crate) proof fn lemma_key_index_at(s: Seq<EntryView>, t: int)
    requires
        keys_unique(s),
        0 <= t < s.len(),
    ensures
        has_key(s, s[t].0),
        layer_get(s, s[t].0) == Some(s[t].1),
{
    lemma_key_index(s, s[t].0, t);
}

/// An iteration over a chain yields each name of its map once, with its
/// value, and nothing else.
pub(crate) proof fn lemma_visible_entries(layers: Seq<Seq<EntryView>>)
    requires
        forall|d: int| 0 <= d < layers.len() ==> keys_unique(#[trigger] layers[d]),
    ensures
        names_distinct(visible_entries(layers)),
        forall|x: int| 0 <= x < visible_entries(layers).len()
            ==> #[trigger] chain_get(layers, visible_entries(layers)[x].0) == Some(visible_entries(layers)[x].1),
        forall|k: Seq<char>| #[trigger] chain_get(layers, k) is Some
            ==> visible_entries(layers).contains((k, chain_get(layers, k)->Some_0)),
{
    let n = layers.len() as int;
    let t = visible_entries(layers);
    lemma_visible_upto(layers, n);
    assert forall|x: int| 0 <= x < t.len() implies #[trigger] chain_get(layers, t[x].0) == Some(t[x].1) by {
        lemma_chain_get_first(layers, t[x].0);
        assert(held_within(layers, t[x], n));
        let d = choose|d: int| 0 <= d < n && #[trigger] first_holder(layers, t[x].0, d)
            && layer_get(layers[d], t[x].0) == Some(Some(t[x].1));
    }
    assert forall|k: Seq<char>| #[trigger] chain_get(layers, k) is Some
        implies t.contains((k, chain_get(layers, k)->Some_0)) by {
        lemma_chain_get_first(layers, k);
        let d = choose|d: int| #[trigger] first_holder(layers, k, d);
        assert(first_holder(layers, k, d));
    }
}

/// Reading through a chain skips an overlay that does not hold the name.
pub(crate) proof fn lemma_chain_step(layers: Seq<Seq<EntryView>>, i: int, k: Seq<char>)
    requires
        0 <= i < layers.len(),
    ensures
        chain_get(layers.subrange(i, layers.len() as int), k) == match layer_get(layers[i], k) {
            Some(slot) => slot,
            None => chain_get(layers.subrange(i + 1, layers.len() as int), k),
        },
{
    let sub = layers.subrange(i, layers.len() as int);
    assert(sub.drop_first() =~= layers.subrange(i + 1, layers.len() as int));
    assert(sub[0] == layers[i]);
}

} // verus!
