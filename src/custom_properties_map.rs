//! A persistent map of custom properties with cheap copies.
//!
//! A handle points to a node that holds its own overlay of entries, and to
//! the nodes it inherits from. Nodes are shared between handles and are only
//! changed in place while a single handle refers to them.

use vstd::prelude::*;
use indexmap::IndexMap;
use servo_arc::Arc;
use crate::chain::{
    apply_slot, apply_slots, chain_get, effective, is_prefix, level_visible, lemma_chain_change,
    lemma_chain_push_front, lemma_chain_step, lemma_chain_top_insert, lemma_produced_prefix,
    lemma_visible_entries, lemma_visible_finite, names_distinct, not_shadowed, visible_entries,
    visible_keys, visible_upto,
};
use crate::overlay::{
    EntryView, entries_insert, has_key, keys_unique, layer_get,
    overlay_clone, overlay_entries, overlay_get, overlay_get_index, overlay_insert, overlay_len, overlay_new,
    overlay_same_order, overlay_shrink_to_fit, slot_view,
};

verus! {

#[verifier::external_type_specification]
#[verifier::external_body]
#[verifier::reject_recursive_types(T)]
pub struct ExArc<T: ?Sized>(servo_arc::Arc<T>);

/// The most ancestors a node may have, which bounds the cost of reads.
pub const ANCESTOR_COUNT_LIMIT: usize = 4;

/// Overlays up to this size are copied on write rather than extended.
pub const SMALL_THRESHOLD: usize = 8;

/// A node as a mathematical value.
pub struct NodeView {
    pub entries: Seq<EntryView>,
    pub len: nat,
    pub ancestor_count: nat,
}

/// One node of a chain: its own overlay, the number of distinct names that
/// are visible from it, and how many ancestors it has.
pub struct Inner {
    own_properties: IndexMap<String, Option<String>>,
    len: usize,
    ancestor_count: u8,
}

impl Clone for Inner {
    fn clone(&self) -> (r: Inner)
        ensures
            r@ == self@,
    {
        Inner {
            own_properties: overlay_clone(&self.own_properties),
            len: self.len,
            ancestor_count: self.ancestor_count,
        }
    }
}

impl View for Inner {
    type V = NodeView;

    closed spec fn view(&self) -> NodeView {
        NodeView {
            entries: overlay_entries(self.own_properties),
            len: self.len as nat,
            ancestor_count: self.ancestor_count as nat,
        }
    }
}

/// What a shared node holds.
pub uninterp spec fn node_view(a: Arc<Inner>) -> NodeView;

/// Relies on servo_arc::Arc::new: the new reference holds `data`.
#[verifier::external_body]
fn arc_new(data: Inner) -> (r: Arc<Inner>)
    ensures
        node_view(r) == data@,
{
    Arc::new(data)
}

/// Relies on the Deref of servo_arc::Arc: the contents it refers to.
#[verifier::external_body]
fn arc_deref(a: &Arc<Inner>) -> (r: &Inner)
    ensures
        r@ == node_view(*a),
{
    &**a
}

/// Relies on the Clone of servo_arc::Arc: one more reference to the same
/// contents.
#[verifier::external_body]
fn arc_clone(a: &Arc<Inner>) -> (r: Arc<Inner>)
    ensures
        node_view(r) == node_view(*a),
{
    a.clone()
}

/// Relies on servo_arc::Arc::is_unique: whether no other reference exists.
/// Nothing is stated of the answer, which depends on the other handles alive.
#[verifier::external_body]
fn arc_is_unique(a: &Arc<Inner>) -> (r: bool) {
    a.is_unique()
}

/// Relies on servo_arc::Arc::make_mut: mutable access to the contents, which
/// are first copied through the Clone of Inner when they are shared.
#[verifier::external_body]
fn arc_make_mut(a: &mut Arc<Inner>) -> (r: &mut Inner)
    ensures
        r@ == node_view(*old(a)),
        node_view(*final(a)) == (*final(r))@,
{
    Arc::make_mut(a)
}

impl Inner {
    /// Whether an update of a shared node should add a node on top of it
    /// rather than copy it.
    fn should_expand_chain(&self) -> (r: bool)
        ensures
            r == (self@.entries.len() > SMALL_THRESHOLD && self@.ancestor_count < ANCESTOR_COUNT_LIMIT),
    {
        if overlay_len(&self.own_properties) <= SMALL_THRESHOLD {
            return false;
        }
        self.ancestor_count < ANCESTOR_COUNT_LIMIT as u8
    }

    /// Stores `value` under `name` in the own overlay, and updates the
    /// number of visible names from whether `name` was visible before.
    fn insert(&mut self, name: &String, value: Option<String>, was_visible: bool)
        requires
            keys_unique(old(self)@.entries),
            was_visible ==> old(self)@.len > 0,
            value is Some && !was_visible ==> old(self)@.len < usize::MAX,
        ensures
            keys_unique(final(self)@.entries),
            final(self)@.entries == entries_insert(old(self)@.entries, name@, slot_view(value)),
            final(self)@.ancestor_count == old(self)@.ancestor_count,
            final(self)@.len + (if was_visible { 1int } else { 0 })
                == old(self)@.len + (if value is Some { 1int } else { 0 }),
    {
        let now_visible = value.is_some();
        overlay_insert(&mut self.own_properties, name.clone(), value);
        if now_visible && !was_visible {
            self.len = self.len + 1;
        } else if !now_visible && was_visible {
            self.len = self.len - 1;
        }
    }
}

/// An iteration over the visible entries of a map: nearest node first, each
/// node's entries in insertion order, without removed names or names that a
/// nearer node holds.
pub struct Iter<'a> {
    map: &'a CustomPropertiesMap,
    level: usize,
    index: usize,
}

impl<'a> Iter<'a> {
    /// The entries yielded so far.
    pub closed spec fn produced(&self) -> Seq<(Seq<char>, Seq<char>)> {
        visible_upto(self.map.layers(), self.level as int) + level_visible(self.map.layers(), self.level as int, self.index as int)
    }

    /// The entries yielded in all.
    pub closed spec fn total(&self) -> Seq<(Seq<char>, Seq<char>)> {
        visible_entries(self.map.layers())
    }

    pub closed spec fn wf(&self) -> bool {
        &&& self.map.wf()
        &&& self.level <= self.map.depth() + 1
        &&& self.level <= self.map.depth() ==> self.index <= self.map.layers()[self.level as int].len()
        &&& self.level == self.map.depth() + 1 ==> self.index == 0
    }

    /// Whether a node nearer than the current one holds `k`.
    fn shadowed(&self, k: &String) -> (r: bool)
        requires
            self.wf(),
            self.level <= self.map.depth(),
        ensures
            r == !not_shadowed(self.map.layers(), self.level as int, k@),
    {
        let map: &'a CustomPropertiesMap = self.map;
        let ghost layers = map.layers();
        let mut d: usize = 0;
        while d < self.level
            invariant
                self.wf(),
                layers == self.map.layers(),
                map == self.map,
                self.level <= self.map.depth(),
                0 <= d <= self.level,
                not_shadowed(layers, d as int, k@),
            decreases self.level - d,
        {
            if overlay_get(&map.node_ref(d).own_properties, k).is_some() {
                assert(layers[d as int] == map.level(d as int).entries);
                assert(has_key(layers[d as int], k@));
                return true;
            }
            d = d + 1;
        }
        false
    }

    /// The next visible entry, if any is left.
    pub fn next(&mut self) -> (r: Option<(&'a String, &'a String)>)
        requires
            old(self).wf(),
        ensures
            final(self).wf(),
            final(self).total() == old(self).total(),
            is_prefix(final(self).produced(), final(self).total()),
            match r {
                None => old(self).produced() == old(self).total() && final(self).produced() == old(self).total(),
                Some(e) => final(self).produced() == old(self).produced().push((e.0@, e.1@)),
            },
    {
        let map: &'a CustomPropertiesMap = self.map;
        let n = map.ancestors.len();
        let ghost layers = map.layers();
        loop
            invariant
                self.wf(),
                map == self.map,
                map == old(self).map,
                n == map.depth(),
                layers == map.layers(),
                self.produced() == old(self).produced(),
            decreases n + 1 - self.level, layers[self.level as int].len() - self.index,
        {
            if self.level > n {
                proof {
                    assert(level_visible(layers, self.level as int, 0) =~= Seq::empty());
                    assert(self.produced() =~= self.total());
                    assert(self.total() =~= self.total().subrange(0, self.total().len() as int));
                }
                return None;
            }
            let node = map.node_ref(self.level);
            if self.index >= overlay_len(&node.own_properties) {
                let ghost before = self.produced();
                self.level = self.level + 1;
                self.index = 0;
                proof {
                    assert(self.produced() =~= before);
                }
                continue;
            }
            match overlay_get_index(&node.own_properties, self.index) {
                None => {},
                Some((k, slot)) => {
                    let ghost before = self.produced();
                    let ghost j = self.index as int;
                    let hidden = self.shadowed(k);
                    self.index = self.index + 1;
                    match slot {
                        Some(v) => {
                            if !hidden {
                                proof {
                                    assert(layers[self.level as int][j] == (k@, Some(v@)));
                                    assert(self.produced() =~= before.push((k@, v@)));
                                    lemma_produced_prefix(layers, self.level as int, self.index as int);
                                }
                                return Some((k, v));
                            }
                            proof {
                                assert(layers[self.level as int][j] == (k@, Some(v@)));
                                assert(self.produced() =~= before);
                            }
                        },
                        None => {
                            proof {
                                assert(layers[self.level as int][j].1 is None);
                                assert(self.produced() =~= before);
                            }
                        },
                    }
                },
            }
        }
    }
}

/// A map of custom properties, which copies on write and is cheap to copy.
pub struct CustomPropertiesMap {
    node: Arc<Inner>,
    /// The ancestors of `node`, nearest first.
    ancestors: Vec<Arc<Inner>>,
}

impl Default for CustomPropertiesMap {
    /// An empty map.
    fn default() -> (r: CustomPropertiesMap)
        ensures
            r.wf(),
            r@ == Map::<Seq<char>, Seq<char>>::empty(),
            r.depth() == 0,
            r.level(0).entries == Seq::<EntryView>::empty(),
    {
        let empty = Inner { own_properties: overlay_new(), len: 0, ancestor_count: 0 };
        let r = CustomPropertiesMap { node: arc_new(empty), ancestors: Vec::new() };
        proof {
            let l = r.layers();
            assert(l.subrange(0, 1) =~= l);
            assert forall|k: Seq<char>| chain_get(l, k) is None by {
                assert(l.drop_first().len() == 0);
                assert(l[0] == Seq::<EntryView>::empty());
                assert(layer_get(l[0], k) is None);
                assert(chain_get(l.drop_first(), k) is None);
                assert(!has_key(l[0], k));
            }
            assert(visible_keys(l) =~= Set::<Seq<char>>::empty());
            assert(r@ =~= Map::<Seq<char>, Seq<char>>::empty());
            assert(keys_unique(r.level(0).entries));
        }
        r
    }
}

impl Clone for CustomPropertiesMap {
    /// Another handle on the same nodes.
    fn clone(&self) -> (r: CustomPropertiesMap)
        ensures
            r.depth() == self.depth(),
            forall|i: int| 0 <= i <= self.depth() ==> r.level(i) == self.level(i),
            r@ == self@,
            self.wf() ==> r.wf(),
    {
        let mut ancestors: Vec<Arc<Inner>> = Vec::new();
        let n = self.ancestors.len();
        let mut i: usize = 0;
        while i < n
            invariant
                n == self.ancestors@.len(),
                0 <= i <= n,
                ancestors@.len() == i,
                forall|j: int| 0 <= j < i ==> node_view(ancestors@[j]) == node_view(self.ancestors@[j]),
            decreases n - i,
        {
            ancestors.push(arc_clone(&self.ancestors[i]));
            i = i + 1;
        }
        let r = CustomPropertiesMap { node: arc_clone(&self.node), ancestors };
        proof {
            assert(r.layers() =~= self.layers());
            if self.wf() {
                assert forall|j: int| 0 <= j <= r.depth() implies {
                    &&& keys_unique(#[trigger] r.level(j).entries)
                    &&& r.level(j).ancestor_count == r.depth() - j
                    &&& r.level(j).len == visible_keys(r.layers().subrange(j, r.depth() + 1int)).len()
                } by {
                    assert(r.level(j) == self.level(j));
                    assert(keys_unique(self.level(j).entries));
                }
            }
        }
        r
    }
}

impl PartialEq for CustomPropertiesMap {
    /// Equal when the chains have the same length and their nodes, pairwise,
    /// the same count of visible names and the same entries in the same
    /// order. Maps with the same contents may still compare unequal.
    fn eq(&self, other: &CustomPropertiesMap) -> (r: bool) {
        let n = self.ancestors.len();
        if n != other.ancestors.len() {
            return false;
        }
        let a = arc_deref(&self.node);
        let b = arc_deref(&other.node);
        if a.len != b.len || !overlay_same_order(&a.own_properties, &b.own_properties) {
            assert(!(self.level(0).len == other.level(0).len && self.level(0).entries == other.level(0).entries));
            return false;
        }
        let mut i: usize = 0;
        while i < n
            invariant
                n == self.depth(),
                n == other.depth(),
                0 <= i <= n,
                forall|j: int| 0 <= j <= i ==> {
                    &&& (#[trigger] self.level(j)).len == other.level(j).len
                    &&& self.level(j).entries == other.level(j).entries
                },
            decreases n - i,
        {
            let a = arc_deref(&self.ancestors[i]);
            let b = arc_deref(&other.ancestors[i]);
            if a.len != b.len || !overlay_same_order(&a.own_properties, &b.own_properties) {
                assert(!(self.level(i + 1).len == other.level(i + 1).len
                    && self.level(i + 1).entries == other.level(i + 1).entries));
                return false;
            }
            i = i + 1;
        }
        true
    }
}

impl vstd::std_specs::cmp::PartialEqSpecImpl for CustomPropertiesMap {
    open spec fn obeys_eq_spec() -> bool {
        true
    }

    open spec fn eq_spec(&self, other: &CustomPropertiesMap) -> bool {
        self.same_chain(other)
    }
}

impl View for CustomPropertiesMap {
    type V = Map<Seq<char>, Seq<char>>;

    /// The names and values visible through the handle.
    open spec fn view(&self) -> Map<Seq<char>, Seq<char>> {
        effective(self.layers())
    }
}

impl CustomPropertiesMap {
    /// How one store of the slot `v` under `k` changes the chain from `self`
    /// to `next`. Either the chain is left as it was, since it already
    /// shows `v` for `k`; or the nearest node takes the slot (in place, or
    /// on a copy of it) above the same ancestors; or, when that node is
    /// larger than the small-map threshold and the chain is below the
    /// ancestor limit, a new node holding only the slot is put on top of the
    /// old chain.
    pub open spec fn step_shape(&self, next: &CustomPropertiesMap, k: Seq<char>, v: Option<Seq<char>>) -> bool {
        ||| (chain_get(self.layers(), k) == v && next.same_chain(self))
        ||| (next.depth() == self.depth()
            && next.level(0).entries == entries_insert(self.level(0).entries, k, v)
            && forall|i: int| 1 <= i <= next.depth() ==> #[trigger] next.level(i) == self.level(i))
        ||| (self.level(0).entries.len() > SMALL_THRESHOLD && self.depth() < ANCESTOR_COUNT_LIMIT
            && next.depth() == self.depth() + 1
            && next.level(0).entries == seq![(k, v)]
            && forall|i: int| 1 <= i <= next.depth() ==> #[trigger] next.level(i) == self.level(i - 1))
    }

    /// Both chains have the same length, and their nodes, pairwise, the same
    /// count of visible names and the same entries in the same order.
    pub open spec fn same_chain(&self, other: &CustomPropertiesMap) -> bool {
        &&& self.depth() == other.depth()
        &&& forall|j: int| 0 <= j <= self.depth() ==> {
            &&& (#[trigger] self.level(j)).len == other.level(j).len
            &&& self.level(j).entries == other.level(j).entries
        }
    }

    /// The number of ancestors of the handle's node.
    pub closed spec fn depth(&self) -> nat {
        self.ancestors@.len()
    }

    /// The node at distance `i` from the handle's node along the chain.
    pub closed spec fn level(&self, i: int) -> NodeView {
        if i == 0 {
            node_view(self.node)
        } else {
            node_view(self.ancestors@[i - 1])
        }
    }

    /// The overlays of the chain, nearest first.
    pub open spec fn layers(&self) -> Seq<Seq<EntryView>> {
        Seq::new(self.depth() + 1, |i: int| self.level(i).entries)
    }

    /// Each node of the chain has unique names, knows its number of
    /// ancestors and the number of names visible from it; the chain is no
    /// longer than the limit.
    pub closed spec fn wf(&self) -> bool {
        &&& self.depth() <= ANCESTOR_COUNT_LIMIT
        &&& forall|i: int| 0 <= i <= self.depth() ==> {
            &&& keys_unique(#[trigger] self.level(i).entries)
            &&& self.level(i).ancestor_count == self.depth() - i
            &&& self.level(i).len == visible_keys(self.layers().subrange(i, self.depth() + 1int)).len()
        }
    }

    fn node_ref(&self, i: usize) -> (r: &Inner)
        requires
            i <= self.depth(),
        ensures
            r@ == self.level(i as int),
    {
        if i == 0 {
            arc_deref(&self.node)
        } else {
            arc_deref(&self.ancestors[i - 1])
        }
    }

    /// Returns whether the map has no properties in it.
    pub fn is_empty(&self) -> (r: bool)
        requires
            self.wf(),
        ensures
            r == (self@.len() == 0),
    {
        self.len() == 0
    }

    /// Returns the number of distinct properties visible in the map.
    pub fn len(&self) -> (r: usize)
        requires
            self.wf(),
        ensures
            r == self@.len(),
    {
        proof {
            assert(keys_unique(self.level(0).entries));
            assert(self.layers().subrange(0, self.depth() + 1int) =~= self.layers());
            assert(self@.dom() =~= visible_keys(self.layers()));
        }
        arc_deref(&self.node).len
    }

    /// Returns the value of a property, if it is visible.
    pub fn get(&self, name: &String) -> (r: Option<&String>)
        requires
            self.wf(),
        ensures
            r is Some <==> self@.contains_key(name@),
            r is Some ==> r.unwrap()@ == self@[name@],
    {
        let n = self.ancestors.len();
        let ghost layers = self.layers();
        let mut i: usize = 0;
        proof {
            assert(layers.subrange(0, n + 1int) =~= layers);
        }
        while i <= n
            invariant
                n == self.depth(),
                n <= ANCESTOR_COUNT_LIMIT,
                layers == self.layers(),
                0 <= i <= n + 1,
                chain_get(layers, name@) == chain_get(layers.subrange(i as int, n + 1int), name@),
            decreases n + 1 - i,
        {
            let node = self.node_ref(i);
            proof {
                lemma_chain_step(layers, i as int, name@);
            }
            match overlay_get(&node.own_properties, name) {
                Some(slot) => {
                    return slot.as_ref();
                },
                None => {
                    i = i + 1;
                },
            }
        }
        proof {
            assert(layers.subrange(i as int, n + 1int).len() == 0);
        }
        None
    }

    /// A visible name makes the count of visible names positive.
    proof fn lemma_len_positive(&self, k: Seq<char>)
        requires
            self.wf(),
            self@.contains_key(k),
        ensures
            self.level(0).len > 0,
    {
        let l = self.layers();
        assert(keys_unique(self.level(0).entries));
        assert(l.subrange(0, self.depth() + 1int) =~= l);
        lemma_visible_finite(l);
        assert(visible_keys(l).contains(k));
    }

    /// Stores a slot under a name: a value, or an empty slot that hides the
    /// name. The node is changed in place when no other handle shares it;
    /// otherwise it is copied, or a node is added on top of it.
    fn do_insert(&mut self, name: &String, value: Option<String>)
        requires
            old(self).wf(),
            value is Some ==> old(self)@.len() < usize::MAX,
        ensures
            final(self).wf(),
            final(self)@ == apply_slot(old(self)@, name@, slot_view(value)),
            old(self).step_shape(final(self), name@, slot_view(value)),
    {
        let ghost a = self.layers();
        let ghost k = name@;
        let ghost v = slot_view(value);
        let was_visible = self.get(name).is_some();
        proof {
            if was_visible {
                self.lemma_len_positive(k);
            }
            assert(keys_unique(self.level(0).entries));
            assert(self.level(0).len == visible_keys(a).len()) by {
                assert(a.subrange(0, self.depth() + 1int) =~= a);
            }
            assert(self@.dom() =~= visible_keys(a));
        }
        if !arc_is_unique(&self.node) {
            let current = self.get(name);
            let same = match (current, &value) {
                (Some(x), Some(y)) => x.eq(y),
                (None, None) => true,
                _ => false,
            };
            if same {
                proof {
                    assert(chain_get(a, k) == v) by {
                        assert(effective(a).dom().contains(k) == (chain_get(a, k) is Some));
                    }
                    assert(self@ =~= apply_slot(self@, k, v));
                }
                return;
            }
            if arc_deref(&self.node).should_expand_chain() {
                let top = arc_deref(&self.node);
                let mut fresh = Inner {
                    own_properties: overlay_new(),
                    len: top.len,
                    ancestor_count: top.ancestor_count + 1,
                };
                fresh.insert(name, value, was_visible);
                let mut moved = arc_new(fresh);
                std::mem::swap(&mut self.node, &mut moved);
                self.ancestors.insert(0, moved);
                proof {
                    let b = self.layers();
                    assert(b =~= seq![entries_insert(Seq::empty(), k, v)] + a);
                    lemma_chain_push_front(a, k, v);
                    lemma_chain_change(a, b, k, v);
                    assert forall|i: int| 0 <= i <= self.depth() implies {
                        &&& keys_unique(#[trigger] self.level(i).entries)
                        &&& self.level(i).ancestor_count == self.depth() - i
                        &&& self.level(i).len == visible_keys(self.layers().subrange(i, self.depth() + 1int)).len()
                    } by {
                        if i == 0 {
                            assert(b.subrange(0, self.depth() + 1int) =~= b);
                        } else {
                            assert(self.level(i) == old(self).level(i - 1));
                            assert(b.subrange(i, self.depth() + 1int) =~= a.subrange(i - 1, old(self).depth() + 1int));
                            assert(keys_unique(old(self).level(i - 1).entries));
                        }
                    }
                }
                return;
            }
        }
        let inner = arc_make_mut(&mut self.node);
        inner.insert(name, value, was_visible);
        proof {
            let b = self.layers();
            lemma_chain_top_insert(a, b, k, v);
            lemma_chain_change(a, b, k, v);
            assert forall|i: int| 0 <= i <= self.depth() implies {
                &&& keys_unique(#[trigger] self.level(i).entries)
                &&& self.level(i).ancestor_count == self.depth() - i
                &&& self.level(i).len == visible_keys(self.layers().subrange(i, self.depth() + 1int)).len()
            } by {
                if i == 0 {
                    assert(b.subrange(0, self.depth() + 1int) =~= b);
                } else {
                    assert(self.level(i) == old(self).level(i));
                    assert(b.subrange(i, self.depth() + 1int) =~= a.subrange(i, old(self).depth() + 1int));
                    assert(keys_unique(old(self).level(i).entries));
                }
            }
        }
    }

    /// Gives back the spare capacity of the handle's node, when no other
    /// handle shares it.
    pub fn shrink_to_fit(&mut self)
        requires
            old(self).wf(),
        ensures
            final(self).wf(),
            final(self).depth() == old(self).depth(),
            forall|i: int| 0 <= i <= old(self).depth() ==> final(self).level(i) == old(self).level(i),
            final(self)@ == old(self)@,
    {
        if arc_is_unique(&self.node) {
            let inner = arc_make_mut(&mut self.node);
            overlay_shrink_to_fit(&mut inner.own_properties);
            proof {
                assert(self.layers() =~= old(self).layers());
                assert forall|i: int| 0 <= i <= self.depth() implies {
                    &&& keys_unique(#[trigger] self.level(i).entries)
                    &&& self.level(i).ancestor_count == self.depth() - i
                    &&& self.level(i).len == visible_keys(self.layers().subrange(i, self.depth() + 1int)).len()
                } by {
                    assert(self.level(i) == old(self).level(i));
                    assert(keys_unique(old(self).level(i).entries));
                }
            }
        }
    }

    /// Returns an iteration over the visible properties.
    pub fn iter<'a>(&'a self) -> (r: Iter<'a>)
        requires
            self.wf(),
        ensures
            r.wf(),
            r.produced() == Seq::<(Seq<char>, Seq<char>)>::empty(),
            r.total() == visible_entries(self.layers()),
    {
        let r = Iter { map: self, level: 0, index: 0 };
        proof {
            assert(r.produced() =~= Seq::<(Seq<char>, Seq<char>)>::empty());
        }
        r
    }

    /// Returns the property at a position of the iteration order. This walks
    /// the iteration up to that position.
    pub fn get_index(&self, index: usize) -> (r: Option<(&String, &String)>)
        requires
            self.wf(),
        ensures
            index < visible_entries(self.layers()).len() <==> r is Some,
            r is Some ==> (r.unwrap().0@, r.unwrap().1@) == visible_entries(self.layers())[index as int],
    {
        let ghost total = visible_entries(self.layers());
        proof {
            lemma_len_counts_iterated_names(self);
        }
        if index >= self.len() {
            return None;
        }
        let mut it = self.iter();
        let mut i: usize = 0;
        proof {
            assert(it.produced() =~= total.subrange(0, 0));
        }
        loop
            invariant
                it.wf(),
                total == visible_entries(self.layers()),
                it.total() == total,
                it.produced().len() == i,
                is_prefix(it.produced(), total),
                i <= index,
            decreases total.len() - i,
        {
            let ghost before = it.produced();
            match it.next() {
                None => {
                    assert(total.len() == i);
                    assert(total == visible_entries(self.layers()));
                    return None;
                },
                Some(e) => {
                    proof {
                        assert(it.produced() == total.subrange(0, i + 1));
                        assert(it.produced()[i as int] == (e.0@, e.1@));
                        assert(total[i as int] == (e.0@, e.1@));
                    }
                    if i == index {
                        assert(index < total.len());
                        assert(total == visible_entries(self.layers()));
                        return Some(e);
                    }
                    i = i + 1;
                },
            }
        }
    }

    /// Inserts a property into the map.
    pub fn insert(&mut self, name: &String, value: String)
        requires
            old(self).wf(),
            old(self)@.len() < usize::MAX,
        ensures
            final(self).wf(),
            final(self)@ == old(self)@.insert(name@, value@),
            final(self).depth() <= ANCESTOR_COUNT_LIMIT,
            old(self).step_shape(final(self), name@, Some(value@)),
    {
        self.do_insert(name, Some(value))
    }

    /// Removes a property from the map.
    pub fn remove(&mut self, name: &String)
        requires
            old(self).wf(),
        ensures
            final(self).wf(),
            final(self)@ == old(self)@.remove(name@),
            final(self).depth() <= ANCESTOR_COUNT_LIMIT,
            old(self).step_shape(final(self), name@, None),
    {
        self.do_insert(name, None)
    }
}

/// Maps that compare equal hold the same properties: the comparison may
/// miss equal contents, never report different ones as equal.
pub proof fn lemma_equal_maps_hold_the_same(a: &CustomPropertiesMap, b: &CustomPropertiesMap)
    requires
        a.same_chain(b),
    ensures
        a.layers() == b.layers(),
        a@ == b@,
        a@.len() == b@.len(),
        visible_entries(a.layers()) == visible_entries(b.layers()),
{
    assert(a.layers() =~= b.layers());
}

/// Maps whose chains have the same length and the same entries in the same
/// order, node by node, compare equal.
pub proof fn lemma_same_overlays_compare_equal(a: &CustomPropertiesMap, b: &CustomPropertiesMap)
    requires
        a.wf(),
        b.wf(),
        a.depth() == b.depth(),
        forall|j: int| 0 <= j <= a.depth() ==> #[trigger] a.level(j).entries == b.level(j).entries,
    ensures
        a.same_chain(b),
{
    assert(a.layers() =~= b.layers());
    assert forall|j: int| 0 <= j <= a.depth() implies {
        &&& (#[trigger] a.level(j)).len == b.level(j).len
        &&& a.level(j).entries == b.level(j).entries
    } by {
        assert(keys_unique(a.level(j).entries));
        assert(keys_unique(b.level(j).entries));
        assert(a.layers().subrange(j, a.depth() + 1int) == b.layers().subrange(j, b.depth() + 1int));
    }
}

/// A handle that goes through a sequence of stores, each of which changes
/// its map as `insert` (a value) or `remove` (an empty slot) promise, ends
/// with the map that a plain map reaches through the same sequence.
pub proof fn lemma_steps_follow_plain_map(
    views: Seq<Map<Seq<char>, Seq<char>>>,
    ops: Seq<(Seq<char>, Option<Seq<char>>)>,
)
    requires
        views.len() == ops.len() + 1,
        forall|i: int| 0 <= i < ops.len() ==> views[i + 1] == apply_slot(#[trigger] views[i], ops[i].0, ops[i].1),
    ensures
        views.last() == apply_slots(views[0], ops),
    decreases ops.len(),
{
    if ops.len() > 0 {
        let rest_views = views.drop_first();
        let rest_ops = ops.drop_first();
        assert forall|i: int| 0 <= i < rest_ops.len() implies rest_views[i + 1] == apply_slot(#[trigger] rest_views[i], rest_ops[i].0, rest_ops[i].1) by {
            assert(rest_views[i] == views[i + 1]);
            assert(rest_views[i + 1] == views[i + 2]);
            assert(rest_ops[i] == ops[i + 1]);
        }
        lemma_steps_follow_plain_map(rest_views, rest_ops);
        assert(views[1] == apply_slot(views[0], ops[0].0, ops[0].1));
        assert(rest_views.last() == views.last());
    }
}

/// The number of properties of a map is the number of distinct names that an
/// iteration over it yields. The iteration yields each name once, with the
/// value that the map holds for it, and every name of the map.
pub proof fn lemma_len_counts_iterated_names(m: &CustomPropertiesMap)
    requires
        m.wf(),
    ensures
        names_distinct(visible_entries(m.layers())),
        m@.len() == visible_entries(m.layers()).map_values(|e: (Seq<char>, Seq<char>)| e.0).to_set().len(),
        m@.len() == visible_entries(m.layers()).len(),
        forall|x: int| 0 <= x < visible_entries(m.layers()).len()
            ==> m@.contains_key(#[trigger] visible_entries(m.layers())[x].0) && m@[visible_entries(m.layers())[x].0] == visible_entries(m.layers())[x].1,
        forall|k: Seq<char>| #[trigger] m@.contains_key(k) ==> visible_entries(m.layers()).contains((k, m@[k])),
{
    let l = m.layers();
    let t = visible_entries(l);
    assert forall|d: int| 0 <= d < l.len() implies keys_unique(#[trigger] l[d]) by {
        assert(keys_unique(m.level(d).entries));
    }
    lemma_visible_entries(l);
    let names = t.map_values(|e: (Seq<char>, Seq<char>)| e.0);
    assert(names.no_duplicates()) by {
        assert forall|i: int, j: int| 0 <= i < names.len() && 0 <= j < names.len() && i != j implies names[i] != names[j] by {
            if i < j {
                assert(t[i].0 != t[j].0);
            } else {
                assert(t[j].0 != t[i].0);
            }
        }
    }
    names.unique_seq_to_set();
    assert forall|k: Seq<char>| names.to_set().contains(k) <==> m@.dom().contains(k) by {
        if names.to_set().contains(k) {
            assert(names.contains(k));
            let x = choose|x: int| 0 <= x < names.len() && names[x] == k;
            assert(chain_get(l, t[x].0) == Some(t[x].1));
        }
        if m@.dom().contains(k) {
            assert(chain_get(l, k) is Some);
            assert(t.contains((k, chain_get(l, k)->Some_0)));
            let x = choose|x: int| 0 <= x < t.len() && t[x] == (k, chain_get(l, k)->Some_0);
            assert(names[x] == k);
        }
    }
    assert(names.to_set() =~= m@.dom());
    assert forall|x: int| 0 <= x < t.len() implies m@.contains_key(#[trigger] t[x].0) && m@[t[x].0] == t[x].1 by {
        assert(chain_get(l, t[x].0) == Some(t[x].1));
    }
    assert forall|k: Seq<char>| #[trigger] m@.contains_key(k) implies t.contains((k, m@[k])) by {
        assert(chain_get(l, k) is Some);
    }
}

/// Storing a value under a name a second time changes neither the
/// properties nor their number.
pub proof fn lemma_insert_again_changes_nothing(m: Map<Seq<char>, Seq<char>>, k: Seq<char>, v: Seq<char>)
    requires
        m.dom().finite(),
    ensures
        m.insert(k, v).insert(k, v) == m.insert(k, v),
        m.insert(k, v).insert(k, v).len() == m.insert(k, v).len(),
{
    assert(m.insert(k, v).insert(k, v) =~= m.insert(k, v));
}

} // verus!
