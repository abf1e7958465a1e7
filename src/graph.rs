use crate::value::{lower_of, lowercased, new_value, Value};
use vstd::pervasive::unreached;
use vstd::prelude::*;

verus! {

/// What a source holds: its current characters and the transform slots that
/// listen to it, in registration order.
pub struct RowModel {
    pub data: Seq<char>,
    pub listeners: Seq<usize>,
}

/// What a transform holds: the source it reads and its cache, if any.
pub struct LowerModel {
    pub input: nat,
    pub cache: Option<Seq<char>>,
}

/// A mutable cell at the root of a dependency chain.
///
/// Each listener is the slot of a transform in the graph's transform store.
/// A slot does not keep its transform alive: once the transform is released
/// the slot stays empty and notifications to it are skipped.
pub struct Row {
    pub data: Value,
    pub listeners: Vec<usize>,
}

impl View for Row {
    type V = RowModel;

    open spec fn view(&self) -> RowModel {
        RowModel { data: self.data@, listeners: self.listeners@ }
    }
}

/// A memoizing node that holds the lowercase mapping of its source's value.
pub struct ToLowercase {
    pub input: usize,
    pub current: Option<Value>,
}

impl View for ToLowercase {
    type V = LowerModel;

    open spec fn view(&self) -> LowerModel {
        LowerModel {
            input: self.input as nat,
            cache: match self.current {
                Some(v) => Some(v@),
                None => None,
            },
        }
    }
}

/// The model of a transform store: a released or empty slot is `None`.
pub open spec fn slots_view(s: Seq<Option<ToLowercase>>) -> Seq<Option<LowerModel>> {
    Seq::new(s.len(), |t: int| match s[t] {
        Some(tl) => Some(tl@),
        None => None,
    })
}

/// A slot after a dirty notification: a live transform loses its cache.
pub open spec fn dirty_slot(s: Option<LowerModel>) -> Option<LowerModel> {
    match s {
        Some(m) => Some(LowerModel { input: m.input, cache: None }),
        None => None,
    }
}

/// The store after notifying each slot in `listeners`.
pub open spec fn notified(
    slots: Seq<Option<LowerModel>>,
    listeners: Seq<usize>,
) -> Seq<Option<LowerModel>> {
    Seq::new(
        slots.len(),
        |t: int|
            if listeners.contains(t as usize) {
                dirty_slot(slots[t])
            } else {
                slots[t]
            },
    )
}

impl Row {
    /// A source whose current value holds the characters of `data`, with no
    /// listeners.
    pub fn new(data: &str) -> (r: Row)
        ensures
            r@ == (RowModel { data: data@, listeners: Seq::empty() }),
    {
        Row { data: new_value(data), listeners: Vec::new() }
    }

    /// The current value, without any side effect.
    pub fn get_current(&self) -> (r: Value)
        ensures
            r@ == self@.data,
    {
        self.data.clone()
    }

    /// Registers the transform in slot `l` as a listener; repeated
    /// registrations are kept.
    pub fn add_listener(&mut self, l: usize)
        ensures
            final(self)@ == (RowModel {
                data: old(self)@.data,
                listeners: old(self)@.listeners.push(l),
            }),
    {
        self.listeners.push(l);
    }

    /// Stores `v`, then marks dirty each listener in registration order,
    /// skipping slots whose transform is gone.
    pub fn set(&mut self, v: Value, slots: &mut Vec<Option<ToLowercase>>)
        ensures
            final(self)@ == (RowModel { data: v@, listeners: old(self)@.listeners }),
            slots_view(final(slots)@) == notified(slots_view(old(slots)@), old(self)@.listeners),
    {
        self.data = v;
        let n = self.listeners.len();
        let mut k: usize = 0;
        while k < n
            invariant
                0 <= k <= n,
                n == self.listeners@.len(),
                self.listeners@ == old(self)@.listeners,
                self.data@ == v@,
                slots@.len() == old(slots)@.len(),
                slots_view(slots@) == notified(slots_view(old(slots)@), self.listeners@.take(k as int)),
            decreases n - k,
        {
            let t = self.listeners[k];
            let ghost before = slots_view(slots@);
            if t < slots.len() {
                match &mut slots[t] {
                    Some(tl) => tl.set_dirty(),
                    None => {},
                }
            }
            proof {
                let done = self.listeners@.take(k as int);
                assert(self.listeners@.take(k + 1) == done.push(t));
                assert forall|u: int| 0 <= u < slots@.len() implies #[trigger] slots_view(slots@)[u]
                    == (if done.push(t).contains(u as usize) {
                    dirty_slot(slots_view(old(slots)@)[u])
                } else {
                    slots_view(old(slots)@)[u]
                }) by {
                    assert(done.push(t).contains(u as usize) <==> (done.contains(u as usize) || t
                        == u as usize)) by {
                        if done.push(t).contains(u as usize) {
                            let j = choose|j: int| 0 <= j < done.len() + 1 && done.push(t)[j] == u as usize;
                            if j < done.len() {
                                assert(done[j] == u as usize);
                            }
                        }
                        if done.contains(u as usize) {
                            let j = choose|j: int| 0 <= j < done.len() && done[j] == u as usize;
                            assert(done.push(t)[j] == u as usize);
                        }
                        if t == u as usize {
                            assert(done.push(t)[done.len() as int] == t);
                        }
                    }
                    assert(before[u] == slots_view(slots@)[u] || u == t);
                }
                assert(slots_view(slots@) =~= notified(slots_view(old(slots)@), done.push(t)));
            }
            k = k + 1;
        }
        proof {
            assert(self.listeners@.take(n as int) == self.listeners@);
        }
    }
}

impl ToLowercase {
    /// A dirty transform over the source at `input`.
    pub fn new(input: usize) -> (r: ToLowercase)
        ensures
            r@ == (LowerModel { input: input as nat, cache: None }),
    {
        ToLowercase { input, current: None }
    }

    /// Clears the cache; nothing is recomputed.
    pub fn set_dirty(&mut self)
        ensures
            final(self)@ == (LowerModel { input: old(self)@.input, cache: None }),
    {
        self.current = None;
    }

    /// The lowercase mapping of `upstream`'s value. A cached value is returned
    /// as it is, without reading `upstream`; otherwise it is computed and
    /// cached.
    pub fn get_current(&mut self, upstream: &Row) -> (r: Value)
        ensures
            old(self)@.cache is Some ==> final(self)@ == old(self)@ && r@ == old(self)@.cache->0,
            old(self)@.cache is None ==> r@ == lower_of(upstream@.data) && final(self)@ == (
            LowerModel { input: old(self)@.input, cache: Some(r@) }),
    {
        match &self.current {
            Some(x) => x.clone(),
            None => {
                let result = lowercased(&upstream.get_current());
                self.current = Some(result.clone());
                result
            },
        }
    }

    /// Registrations on a transform are accepted and not honoured: changes
    /// propagate one level only.
    pub fn add_listener(&mut self, l: usize)
        ensures
            final(self)@ == old(self)@,
    {
    }
}

/// A handle on a node of the graph: a source or a transform, by slot.
#[derive(Clone, Copy, Debug, PartialEq, Eq, Structural)]
pub enum Producer {
    Source(usize),
    Transform(usize),
}

/// What a graph holds: its sources, and its transform store, where a released
/// transform leaves an empty slot.
pub struct GraphModel {
    pub rows: Seq<RowModel>,
    pub slots: Seq<Option<LowerModel>>,
}

impl GraphModel {
    /// `p` names a source of the graph or a transform still alive.
    pub open spec fn live(self, p: Producer) -> bool {
        match p {
            Producer::Source(i) => i < self.rows.len(),
            Producer::Transform(t) => t < self.slots.len() && self.slots[t as int] is Some,
        }
    }

    /// The live transform in slot `t` reads an existing source, is registered
    /// as one of its listeners, and caches nothing but the lowercase mapping of
    /// that source's current value.
    pub open spec fn slot_ok(self, t: int) -> bool {
        let m = self.slots[t]->0;
        &&& m.input < self.rows.len()
        &&& self.rows[m.input as int].listeners.contains(t as usize)
        &&& m.cache is Some ==> m.cache->0 == lower_of(self.rows[m.input as int].data)
    }

    /// Every live transform slot is as `slot_ok` says.
    pub open spec fn wf(self) -> bool {
        forall|t: int| 0 <= t < self.slots.len() && #[trigger] self.slots[t] is Some ==> self.slot_ok(t)
    }

    /// The current value of a live producer: what a source holds, or the
    /// lowercase mapping of what a transform's source holds.
    pub open spec fn value_of(self, p: Producer) -> Seq<char> {
        match p {
            Producer::Source(i) => self.rows[i as int].data,
            Producer::Transform(t) => lower_of(self.rows[self.slots[t as int]->0.input as int].data),
        }
    }

    /// The graph after reading `p`: a dirty transform caches its value; a
    /// source or a cached transform is left as it is.
    pub open spec fn pulled(self, p: Producer) -> GraphModel {
        match p {
            Producer::Source(_) => self,
            Producer::Transform(t) => {
                let m = self.slots[t as int]->0;
                if m.cache is Some {
                    self
                } else {
                    GraphModel {
                        rows: self.rows,
                        slots: self.slots.update(
                            t as int,
                            Some(LowerModel { input: m.input, cache: Some(self.value_of(p)) }),
                        ),
                    }
                }
            },
        }
    }

    /// The graph after source `i` takes the value `v` and notifies its
    /// listeners.
    pub open spec fn after_set(self, i: int, v: Seq<char>) -> GraphModel {
        GraphModel {
            rows: self.rows.update(i, RowModel { data: v, listeners: self.rows[i].listeners }),
            slots: notified(self.slots, self.rows[i].listeners),
        }
    }

    /// The graph with one more source, holding `v`.
    pub open spec fn with_source(self, v: Seq<char>) -> GraphModel {
        GraphModel {
            rows: self.rows.push(RowModel { data: v, listeners: Seq::empty() }),
            slots: self.slots,
        }
    }

    /// The graph with one more, dirty, transform over source `i`, registered
    /// as its listener.
    pub open spec fn with_transform(self, i: int) -> GraphModel {
        let t = self.slots.len() as usize;
        GraphModel {
            rows: self.rows,
            slots: self.slots.push(Some(LowerModel { input: i as nat, cache: None })),
        }.with_listener(Producer::Source(i as usize), t)
    }

    /// The graph after registering slot `l` as a listener of `p`: a source
    /// records it, a transform ignores it.
    pub open spec fn with_listener(self, p: Producer, l: usize) -> GraphModel {
        match p {
            Producer::Source(i) => GraphModel {
                rows: self.rows.update(
                    i as int,
                    RowModel {
                        data: self.rows[i as int].data,
                        listeners: self.rows[i as int].listeners.push(l),
                    },
                ),
                slots: self.slots,
            },
            Producer::Transform(_) => self,
        }
    }

    /// The graph once the transform in slot `t` is gone.
    pub open spec fn released(self, t: int) -> GraphModel {
        GraphModel { rows: self.rows, slots: self.slots.update(t, None) }
    }
}

/// The whole object graph: sources own their values, transforms are held in
/// slots and reached from sources by slot only.
pub struct Graph {
    pub rows: Vec<Row>,
    pub slots: Vec<Option<ToLowercase>>,
}

impl View for Graph {
    type V = GraphModel;

    open spec fn view(&self) -> GraphModel {
        GraphModel { rows: self.rows@.map_values(|r: Row| r@), slots: slots_view(self.slots@) }
    }
}

/// Reading a producer keeps the graph well formed and changes no value.
pub proof fn lemma_pulled(g: GraphModel, p: Producer)
    requires
        g.wf(),
        g.live(p),
    ensures
        g.pulled(p).wf(),
        g.pulled(p).rows == g.rows,
        g.pulled(p).slots.len() == g.slots.len(),
        forall|q: Producer| g.live(q) ==> #[trigger] g.pulled(p).live(q) && g.pulled(p).value_of(q)
            == g.value_of(q),
{
    let h = g.pulled(p);
    if let Producer::Transform(t) = p {
        assert(g.slot_ok(t as int));
        assert forall|u: int| 0 <= u < h.slots.len() && #[trigger] h.slots[u] is Some implies h.slot_ok(u) by {
            assert(g.slot_ok(u));
        }
    }
}

/// Setting a source keeps the graph well formed.
pub proof fn lemma_after_set(g: GraphModel, i: int, v: Seq<char>)
    requires
        g.wf(),
        0 <= i < g.rows.len(),
    ensures
        g.after_set(i, v).wf(),
        g.after_set(i, v).slots.len() == g.slots.len(),
        g.after_set(i, v).rows.len() == g.rows.len(),
        forall|t: int| 0 <= t < g.slots.len() ==> (#[trigger] g.after_set(i, v).slots[t] is Some <==> g.slots[t] is Some),
        forall|t: int| 0 <= t < g.slots.len() && g.slots[t] is Some ==> #[trigger] g.after_set(i, v).slots[t]->0.input == g.slots[t]->0.input,
{
    let h = g.after_set(i, v);
    assert forall|u: int| 0 <= u < h.slots.len() && #[trigger] h.slots[u] is Some implies h.slot_ok(u) by {
        assert(g.slot_ok(u));
    }
}

/// Releasing a transform keeps the graph well formed.
pub proof fn lemma_released(g: GraphModel, t: int)
    requires
        g.wf(),
        0 <= t < g.slots.len(),
    ensures
        g.released(t).wf(),
{
    let h = g.released(t);
    assert forall|u: int| 0 <= u < h.slots.len() && #[trigger] h.slots[u] is Some implies h.slot_ok(u) by {
        assert(g.slot_ok(u));
    }
}

/// Reading a producer twice gives the same value both times, and the second
/// read changes nothing: after the first read a transform holds its value in
/// cache, and a cached transform is not recomputed.
pub proof fn lemma_read_twice(g: GraphModel, p: Producer)
    requires
        g.wf(),
        g.live(p),
    ensures
        g.pulled(p).pulled(p) == g.pulled(p),
        g.pulled(p).value_of(p) == g.value_of(p),
        p is Transform ==> g.pulled(p).slots[p->Transform_0 as int]->0.cache == Some(g.value_of(p)),
{
    lemma_pulled(g, p);
    if let Producer::Transform(t) = p {
        assert(g.slot_ok(t as int));
    }
}

/// After a source takes the value `v`, a transform that watches it reads as
/// the lowercase mapping of `v`, whatever it had cached before.
pub proof fn lemma_set_then_read(g: GraphModel, i: int, v: Seq<char>, t: usize)
    requires
        g.wf(),
        0 <= i < g.rows.len(),
        t < g.slots.len(),
        g.slots[t as int] is Some,
        g.slots[t as int]->0.input == i,
    ensures
        g.after_set(i, v).wf(),
        g.after_set(i, v).live(Producer::Transform(t)),
        g.after_set(i, v).value_of(Producer::Transform(t)) == lower_of(v),
{
    lemma_after_set(g, i, v);
    assert(g.after_set(i, v).slots[t as int] is Some);
}

/// Marking dirty a transform that is already dirty, or a slot that is empty,
/// changes nothing.
pub proof fn lemma_dirty_idempotent(s: Option<LowerModel>)
    requires
        s is None || s->0.cache is None,
    ensures
        dirty_slot(s) == s,
{
}

/// Notifying the same listeners twice leaves the store as notifying them once.
pub proof fn lemma_notified_twice(slots: Seq<Option<LowerModel>>, listeners: Seq<usize>)
    ensures
        notified(notified(slots, listeners), listeners) == notified(slots, listeners),
{
    assert(notified(notified(slots, listeners), listeners) =~= notified(slots, listeners));
}

/// Once a transform is released, setting any source keeps the graph well
/// formed: the source takes its value and the released slot stays empty.
pub proof fn lemma_set_after_release(g: GraphModel, t: int, i: int, v: Seq<char>)
    requires
        g.wf(),
        0 <= t < g.slots.len(),
        0 <= i < g.rows.len(),
    ensures
        g.released(t).after_set(i, v).wf(),
        g.released(t).after_set(i, v).slots.len() == g.slots.len(),
        g.released(t).after_set(i, v).slots[t] is None,
        g.released(t).after_set(i, v).rows[i].data == v,
{
    lemma_released(g, t);
    lemma_after_set(g.released(t), i, v);
}

impl Graph {
    /// An empty graph.
    pub fn new() -> (r: Graph)
        ensures
            r@.rows.len() == 0,
            r@.slots.len() == 0,
            r@.wf(),
    {
        let r = Graph { rows: Vec::new(), slots: Vec::new() };
        assert(r@.rows =~= Seq::empty());
        assert(r@.slots =~= Seq::empty());
        r
    }

    /// Adds a source holding the characters of `data`.
    pub fn new_source(&mut self, data: &str) -> (r: Producer)
        requires
            old(self)@.wf(),
        ensures
            r == Producer::Source(old(self)@.rows.len() as usize),
            final(self)@ == old(self)@.with_source(data@),
            final(self)@.wf(),
    {
        let r = Producer::Source(self.rows.len());
        self.rows.push(Row::new(data));
        proof {
            assert(self@.rows =~= old(self)@.with_source(data@).rows);
            assert(self@ == old(self)@.with_source(data@));
            let g = old(self)@;
            let h = self@;
            assert forall|u: int| 0 <= u < h.slots.len() && #[trigger] h.slots[u] is Some implies h.slot_ok(u) by {
                assert(g.slot_ok(u));
            }
        }
        r
    }

    /// The current value of `p`, recomputed and cached first if `p` is a
    /// dirty transform.
    pub fn get_current(&mut self, p: Producer) -> (r: Value)
        requires
            old(self)@.wf(),
            old(self)@.live(p),
        ensures
            r@ == old(self)@.value_of(p),
            final(self)@ == old(self)@.pulled(p),
            final(self)@.wf(),
    {
        proof { lemma_pulled(self@, p); }
        match p {
            Producer::Source(i) => self.rows[i].get_current(),
            Producer::Transform(t) => {
                let ghost g = self@;
                proof { assert(g.slot_ok(t as int)); }
                let i = match &self.slots[t] {
                    Some(tl) => tl.input,
                    None => unreached(),
                };
                let r = match &mut self.slots[t] {
                    Some(tl) => tl.get_current(&self.rows[i]),
                    None => unreached(),
                };
                proof {
                    assert(self@.rows == g.rows);
                    assert(self@.slots =~= g.pulled(p).slots);
                }
                r
            },
        }
    }

    /// Stores `v` in source `p`, then marks dirty each live transform that
    /// listens to it.
    pub fn set(&mut self, p: Producer, v: Value)
        requires
            old(self)@.wf(),
            old(self)@.live(p),
            p is Source,
        ensures
            final(self)@ == old(self)@.after_set(p->Source_0 as int, v@),
            final(self)@.wf(),
    {
        proof { lemma_after_set(self@, p->Source_0 as int, v@); }
        if let Producer::Source(i) = p {
            let ghost g = self@;
            self.rows[i].set(v, &mut self.slots);
            proof {
                assert(self@.rows =~= g.after_set(i as int, v@).rows);
            }
        }
    }

    /// Registers slot `l` as a listener of `p`. A source keeps it; a
    /// transform accepts it and does not honour it.
    pub fn add_listener(&mut self, p: Producer, l: usize)
        requires
            old(self)@.wf(),
            old(self)@.live(p),
        ensures
            final(self)@ == old(self)@.with_listener(p, l),
            final(self)@.wf(),
    {
        let ghost g = self@;
        match p {
            Producer::Source(i) => self.rows[i].add_listener(l),
            Producer::Transform(t) => match &mut self.slots[t] {
                Some(tl) => tl.add_listener(l),
                None => {},
            },
        }
        proof {
            let h = g.with_listener(p, l);
            assert(self@.rows =~= h.rows);
            assert(self@.slots =~= h.slots);
            assert forall|u: int| 0 <= u < h.slots.len() && #[trigger] h.slots[u] is Some implies h.slot_ok(u) by {
                assert(g.slot_ok(u));
                let j = g.slots[u]->0.input as int;
                if let Producer::Source(i) = p {
                    if j == i {
                        let k = choose|k: int| 0 <= k < g.rows[j].listeners.len() && g.rows[j].listeners[k] == u as usize;
                        assert(h.rows[j].listeners[k] == u as usize);
                    }
                }
            }
        }
    }

    /// Drops the transform `p`: its slot is emptied and later notifications
    /// to it are skipped.
    pub fn release(&mut self, p: Producer)
        requires
            old(self)@.wf(),
            p is Transform,
            p->Transform_0 < old(self)@.slots.len(),
        ensures
            final(self)@ == old(self)@.released(p->Transform_0 as int),
            final(self)@.wf(),
    {
        proof { lemma_released(self@, p->Transform_0 as int); }
        if let Producer::Transform(t) = p {
            let ghost g = self@;
            self.slots.set(t, None);
            proof {
                assert(self@.slots =~= g.released(t as int).slots);
            }
        }
    }
}

/// Makes a dirty lowercase transform over the source `input` and registers it
/// as a listener of that source.
pub fn make_to_lowercase(g: &mut Graph, input: Producer) -> (r: Producer)
    requires
        old(g)@.wf(),
        old(g)@.live(input),
        input is Source,
    ensures
        r == Producer::Transform(old(g)@.slots.len() as usize),
        final(g)@ == old(g)@.with_transform(input->Source_0 as int),
        final(g)@.wf(),
{
    let i = match input {
        Producer::Source(i) => i,
        Producer::Transform(_) => unreached(),
    };
    let t = g.slots.len();
    g.add_listener(input, t);
    let ghost h = g@;
    g.slots.push(Some(ToLowercase::new(i)));
    proof {
        let w = old(g)@.with_transform(i as int);
        assert(g@.rows == w.rows);
        assert(g@.slots =~= w.slots);
        assert forall|u: int| 0 <= u < w.slots.len() && #[trigger] w.slots[u] is Some implies w.slot_ok(u) by {
            if u < h.slots.len() {
                assert(h.slot_ok(u));
            } else {
                assert(w.rows[i as int].listeners.last() == t);
            }
        }
    }
    Producer::Transform(t)
}

} // verus!
