//! Stacks: which layers a view reads, and through which windows.

use std::collections::BTreeMap;

use vstd::prelude::*;
use vstd::std_specs::iter::IteratorSpec;

use crate::catalog::{filed, RelInfo};
use crate::codec::Stamp;
use crate::content::{lemma_overlay_finite, overlay};
use crate::iter::{lemma_windowed_finite, windowed, RawIter, StackMerge, Window};
use crate::layer::{in_order, lemma_rows_bytes_take, rows_bytes, rows_sorted, Content, Layer, Row};

verus! {

/// A layer of a stack, by name, and the window it is seen through.
#[derive(Clone, Debug, PartialEq, Eq)]
pub struct LayerRef {
    pub name: String,
    pub window: Window,
}

impl LayerRef {
    /// The whole of a layer.
    pub fn new(name: &str) -> (r: LayerRef)
        ensures
            r.name@ == name@,
            r.window == (Window { since: None, bound: None }),
    {
        LayerRef { name: name.to_owned(), window: Window::open() }
    }

    /// A layer as it was at `bound`.
    pub fn bounded(name: &str, bound: Stamp) -> (r: LayerRef)
        ensures
            r.name@ == name@,
            r.window == (Window { since: None, bound: Some(bound) }),
    {
        LayerRef { name: name.to_owned(), window: Window { since: None, bound: Some(bound) } }
    }
}

/// The layers of a view, topmost first.
pub type Stack = Vec<LayerRef>;

/// A stack that cannot be read.
#[derive(Debug, PartialEq, Eq)]
pub enum StackError {
    /// It has no layer.
    Empty,
    /// It names a layer that the store does not have.
    UnknownLayer { name: String },
}

/// What is wrong with a stack.
#[verifier::ext_equal]
pub enum StackFault {
    /// It has no layer.
    Empty,
    /// The first of its layers that the store does not have goes by this name.
    UnknownLayer { name: Seq<char> },
}

impl View for StackError {
    type V = StackFault;

    open spec fn view(&self) -> StackFault {
        match self {
            StackError::Empty => StackFault::Empty,
            StackError::UnknownLayer { name } => StackFault::UnknownLayer { name: name@ },
        }
    }
}

/// A layer of a stack, found in the store.
pub struct BoundLayer<'a> {
    pub name: &'a String,
    pub rows: &'a Vec<Row>,
    pub window: Window,
}

impl<'a> BoundLayer<'a> {
    /// What the stack sees of the layer.
    pub open spec fn content(&self) -> Content {
        windowed(self.rows@, self.window)
    }
}

/// Every layer's rows are in key order.
pub open spec fn bound_wf(layers: Seq<BoundLayer>) -> bool {
    forall|i: int| 0 <= i < layers.len() ==> rows_sorted((#[trigger] layers[i]).rows@)
}

/// What the layers hold between them.
pub open spec fn bound_content(layers: Seq<BoundLayer>) -> Content {
    overlay(Seq::new(layers.len(), |i: int| layers[i].content()))
}

/// A stack holds finitely many keys.
pub proof fn lemma_bound_finite(layers: Seq<BoundLayer>)
    ensures
        bound_content(layers).dom().finite(),
{
    let maps = Seq::new(layers.len(), |i: int| layers[i].content());
    assert forall|i: int| 0 <= i < maps.len() implies (#[trigger] maps[i]).dom().finite() by {
        lemma_windowed_finite(layers[i].rows@, layers[i].window);
    }
    lemma_overlay_finite(maps);
}

/// A merge of the layers' rows below `upper`, yet to be sought.
pub fn merge_over<'a>(layers: &Vec<BoundLayer<'a>>, upper: Option<Vec<u8>>) -> (m: StackMerge<'a>)
    requires
        bound_wf(layers@),
    ensures
        m.inv(),
        m.content() == bound_content(layers@),
        m.upper_bound() == match upper {
            Some(u) => Some(u@),
            None => None,
        },
        m.pending() == Map::<Seq<u8>, Seq<u8>>::empty(),
{
    let mut iters: Vec<(RawIter<'a>, Window)> = Vec::new();
    let mut i: usize = 0;
    while i < layers.len()
        invariant
            i <= layers@.len(),
            iters@.len() == i,
            bound_wf(layers@),
            forall|j: int|
                0 <= j < i ==> (#[trigger] iters@[j]).0.fresh() && iters@[j].0.rows@
                    == layers@[j].rows@ && iters@[j].1 == layers@[j].window,
        decreases layers@.len() - i,
    {
        let rows: &'a Vec<Row> = layers[i].rows;
        let window: Window = layers[i].window;
        assert(rows_sorted(layers@[i as int].rows@));
        iters.push((RawIter::new(rows.as_slice()), window));
        i += 1;
    }
    proof {
        assert(Seq::new(iters@.len(), |i: int| windowed(iters@[i].0.rows@, iters@[i].1))
            =~= Seq::new(layers@.len(), |i: int| layers@[i].content()));
    }
    StackMerge::new(iters, upper)
}

/// Adds the bytes of the rows to a count; `None` if a machine word cannot hold the sum.
fn add_bytes(rows: &Vec<Row>, start: u64) -> (r: Option<u64>)
    ensures
        r is Some <==> start + rows_bytes(rows@) <= u64::MAX,
        r matches Some(n) ==> n == start + rows_bytes(rows@),
{
    let mut total: u64 = start;
    let mut i: usize = 0;
    assert(rows@.take(0) =~= Seq::<Row>::empty());
    while i < rows.len()
        invariant
            i <= rows@.len(),
            total == start + rows_bytes(rows@.take(i as int)),
        decreases rows@.len() - i,
    {
        proof {
            assert(rows@.take(i + 1).drop_last() =~= rows@.take(i as int));
            lemma_rows_bytes_take(rows@, i + 1);
        }
        let size: u128 = rows[i].key.len() as u128 + rows[i].val.len() as u128;
        let sum: u128 = total as u128 + size;
        if sum > u64::MAX as u128 {
            return None;
        }
        total = sum as u64;
        i += 1;
    }
    assert(rows@.take(rows@.len() as int) =~= rows@);
    Some(total)
}

/// A layered store as one transaction sees it: its layers, and the relations of its catalog by
/// relation id.
pub struct Db {
    pub layers: Vec<Layer>,
    pub relations: BTreeMap<u64, RelInfo>,
}

/// `i` is the first layer with this name.
pub open spec fn is_layer(layers: Seq<Layer>, name: Seq<char>, i: int) -> bool {
    &&& 0 <= i < layers.len()
    &&& layers[i].name@ == name
    &&& forall|j: int| 0 <= j < i ==> (#[trigger] layers[j]).name@ != name
}

/// Some layer has this name.
pub open spec fn has_layer(layers: Seq<Layer>, name: Seq<char>) -> bool {
    exists|i: int| is_layer(layers, name, i)
}

/// Where the layer with this name is.
pub open spec fn layer_index(layers: Seq<Layer>, name: Seq<char>) -> int {
    choose|i: int| is_layer(layers, name, i)
}

/// There is at most one first layer with a name.
pub proof fn lemma_layer_index(layers: Seq<Layer>, name: Seq<char>, i: int)
    requires
        is_layer(layers, name, i),
    ensures
        has_layer(layers, name),
        layer_index(layers, name) == i,
{
    let c = layer_index(layers, name);
    assert(is_layer(layers, name, c));
    if c < i {
        assert(layers[c].name@ != name);
    } else if i < c {
        assert(layers[i].name@ != name);
    }
}

impl Db {
    /// Each layer's rows are in key order, and each relation is filed under its id, with an id free
    /// above it.
    pub open spec fn wf(&self) -> bool {
        &&& forall|i: int| 0 <= i < self.layers@.len() ==> (#[trigger] self.layers@[i]).wf()
        &&& filed(self.relations@)
    }

    /// `i` is the first layer of the stack that the store does not have.
    pub open spec fn first_unknown(&self, stack: Seq<LayerRef>, i: int) -> bool {
        &&& 0 <= i < stack.len()
        &&& !has_layer(self.layers@, stack[i].name@)
        &&& forall|j: int| 0 <= j < i ==> has_layer(self.layers@, (#[trigger] stack[j]).name@)
    }

    /// What is wrong with a stack, if anything is.
    pub open spec fn fault(&self, stack: Seq<LayerRef>) -> Option<StackFault> {
        if stack.len() == 0 {
            Some(StackFault::Empty)
        } else if exists|i: int| self.first_unknown(stack, i) {
            Some(
                StackFault::UnknownLayer {
                    name: stack[choose|i: int| self.first_unknown(stack, i)].name@,
                },
            )
        } else {
            None
        }
    }

    /// Every layer of a stack that nothing is wrong with exists.
    pub proof fn lemma_known(&self, stack: Seq<LayerRef>, i: int)
        requires
            self.fault(stack) is None,
            0 <= i < stack.len(),
        ensures
            has_layer(self.layers@, stack[i].name@),
        decreases i,
    {
        if !has_layer(self.layers@, stack[i].name@) {
            assert forall|j: int| 0 <= j < i implies has_layer(
                self.layers@,
                (#[trigger] stack[j]).name@,
            ) by {
                self.lemma_known(stack, j);
            }
            assert(self.first_unknown(stack, i));
        }
    }

    /// What the stack sees of its `i`th layer.
    pub open spec fn layer_view(&self, stack: Seq<LayerRef>, i: int) -> Content {
        windowed(self.layers@[layer_index(self.layers@, stack[i].name@)].rows@, stack[i].window)
    }

    /// What the stack holds.
    pub open spec fn view_of(&self, stack: Seq<LayerRef>) -> Content {
        overlay(Seq::new(stack.len(), |i: int| self.layer_view(stack, i)))
    }

    /// A stack holds finitely many keys.
    pub proof fn lemma_view_finite(&self, stack: Seq<LayerRef>)
        ensures
            self.view_of(stack).dom().finite(),
    {
        let maps = Seq::new(stack.len(), |i: int| self.layer_view(stack, i));
        assert forall|i: int| 0 <= i < maps.len() implies (#[trigger] maps[i]).dom().finite() by {
            let rows = self.layers@[layer_index(self.layers@, stack[i].name@)].rows@;
            lemma_windowed_finite(rows, stack[i].window);
        }
        lemma_overlay_finite(maps);
    }

    /// The layer stands for the `i`th place of the stack.
    pub open spec fn binds_at(&self, stack: Seq<LayerRef>, layer: BoundLayer, i: int) -> bool {
        let stored = self.layers@[layer_index(self.layers@, stack[i].name@)];
        &&& layer.name@ == stack[i].name@
        &&& layer.window == stack[i].window
        &&& layer.rows@ == stored.rows@
        &&& rows_sorted(layer.rows@)
        &&& layer.content() == self.layer_view(stack, i)
    }

    /// The layers stand for the places of the stack, in order.
    pub open spec fn binds(&self, stack: Seq<LayerRef>, layers: Seq<BoundLayer>) -> bool {
        &&& layers.len() == stack.len()
        &&& bound_wf(layers)
        &&& forall|i: int|
            0 <= i < layers.len() ==> self.binds_at(stack, #[trigger] layers[i], i)
    }

    /// The bytes in the layers that the first `n` places of a stack name.
    pub open spec fn stack_bytes(&self, stack: Seq<LayerRef>, n: int) -> nat
        decreases n,
    {
        if n <= 0 {
            0
        } else {
            self.stack_bytes(stack, n - 1) + if has_layer(self.layers@, stack[n - 1].name@) {
                rows_bytes(self.layers@[layer_index(self.layers@, stack[n - 1].name@)].rows@)
            } else {
                0
            }
        }
    }

    /// The layers that a stack reads hold no more bytes than a machine word counts.
    pub open spec fn countable(&self, stack: Seq<LayerRef>) -> bool {
        self.stack_bytes(stack, stack.len() as int) <= u64::MAX
    }

    /// The store's layer with this name.
    pub(crate) fn find(&self, name: &String) -> (r: Option<usize>)
        ensures
            r is Some <==> has_layer(self.layers@, name@),
            r matches Some(i) ==> i < self.layers@.len() && i == layer_index(self.layers@, name@)
                && self.layers@[i as int].name@ == name@,
    {
        let mut i: usize = 0;
        while i < self.layers.len()
            invariant
                i <= self.layers@.len(),
                forall|j: int| 0 <= j < i ==> (#[trigger] self.layers@[j]).name@ != name@,
            decreases self.layers@.len() - i,
        {
            if self.layers[i].name == *name {
                proof {
                    lemma_layer_index(self.layers@, name@, i as int);
                }
                return Some(i);
            }
            i += 1;
        }
        None
    }

    /// A store over layers and relations read from storage; `None` if they are not in order.
    pub fn new(layers: Vec<Layer>, relations: BTreeMap<u64, RelInfo>) -> (r: Option<Db>)
        ensures
            r is Some <==> (Db { layers, relations }).wf(),
            r matches Some(db) ==> db == (Db { layers, relations }),
    {
        let mut i: usize = 0;
        while i < layers.len()
            invariant
                i <= layers@.len(),
                forall|j: int| 0 <= j < i ==> (#[trigger] layers@[j]).wf(),
            decreases layers@.len() - i,
        {
            if !in_order(&layers[i].rows) {
                assert(!(Db { layers, relations }).layers@[i as int].wf());
                return None;
            }
            i += 1;
        }
        let ghost rels = relations@;
        let ghost listed = relations.iter().remaining();
        for entry in it: relations.iter()
            invariant
                it.seq() == listed,
                rels == relations@,
                forall|j: int|
                    0 <= j < listed.len() ==> rels.contains_key(*(#[trigger] listed[j]).0)
                        && rels[*listed[j].0] == *listed[j].1,
                forall|j: int|
                    0 <= j < it.index() ==> (#[trigger] listed[j]).1.id.0 == *listed[j].0
                        && *listed[j].0 < u64::MAX,
        {
            assert(entry == listed[it.index() as int]);
            let (id, rel) = entry;
            if rel.id.0 != *id || *id == u64::MAX {
                assert(rels.contains_key(*id));
                return None;
            }
        }
        assert forall|id: u64| #[trigger] rels.contains_key(id) implies rels[id].id.0 == id && id
            < u64::MAX by {
            assert(listed.contains((&id, &rels[id])));
        }
        Some(Db { layers, relations })
    }

    /// Whether the layers that a stack reads hold no more bytes than a machine word counts.
    pub fn is_countable(&self, stack: &Stack) -> (r: bool)
        ensures
            r == self.countable(stack@),
    {
        let mut total: u64 = 0;
        let mut i: usize = 0;
        while i < stack.len()
            invariant
                i <= stack@.len(),
                total == self.stack_bytes(stack@, i as int),
            decreases stack@.len() - i,
        {
            proof {
                self.lemma_stack_bytes(stack@, i + 1);
            }
            if let Some(at) = self.find(&stack[i].name) {
                match add_bytes(&self.layers[at].rows, total) {
                    Some(n) => {
                        total = n;
                    },
                    None => {
                        return false;
                    },
                }
            }
            i += 1;
        }
        true
    }

    /// More places of a stack never hold fewer bytes.
    proof fn lemma_stack_bytes(&self, stack: Seq<LayerRef>, n: int)
        requires
            0 <= n <= stack.len(),
        ensures
            self.stack_bytes(stack, n) <= self.stack_bytes(stack, stack.len() as int),
        decreases stack.len() - n,
    {
        if n < stack.len() {
            self.lemma_stack_bytes(stack, n + 1);
        }
    }

    /// Finds the layers of a stack.
    pub fn bind_layers<'a>(&'a self, stack: &Stack) -> (r: Result<Vec<BoundLayer<'a>>, StackError>)
        requires
            self.wf(),
        ensures
            match r {
                Ok(bound) => {
                    &&& self.fault(stack@) is None
                    &&& self.binds(stack@, bound@)
                    &&& bound_content(bound@) == self.view_of(stack@)
                },
                Err(e) => self.fault(stack@) == Some(e@),
            },
    {
        if stack.len() == 0 {
            return Err(StackError::Empty);
        }
        let mut bound: Vec<BoundLayer<'a>> = Vec::new();
        let mut i: usize = 0;
        while i < stack.len()
            invariant
                self.wf(),
                i <= stack@.len(),
                bound@.len() == i,
                forall|j: int|
                    0 <= j < i ==> has_layer(self.layers@, (#[trigger] stack@[j]).name@),
                forall|j: int| 0 <= j < i ==> self.binds_at(stack@, #[trigger] bound@[j], j),
            decreases stack@.len() - i,
        {
            match self.find(&stack[i].name) {
                None => {
                    proof {
                        assert(self.first_unknown(stack@, i as int));
                        let c = choose|c: int| self.first_unknown(stack@, c);
                        assert(self.first_unknown(stack@, c));
                        if c < i {
                            assert(has_layer(self.layers@, stack@[c].name@));
                        }
                    }
                    return Err(StackError::UnknownLayer { name: stack[i].name.clone() });
                },
                Some(at) => {
                    assert(self.layers@[at as int].wf());
                    bound.push(
                        BoundLayer {
                            name: &self.layers[at].name,
                            rows: &self.layers[at].rows,
                            window: stack[i].window,
                        },
                    );
                },
            }
            i += 1;
        }
        proof {
            if exists|c: int| self.first_unknown(stack@, c) {
                let c = choose|c: int| self.first_unknown(stack@, c);
                assert(has_layer(self.layers@, stack@[c].name@));
            }
            assert(Seq::new(bound@.len(), |i: int| bound@[i].content()) =~= Seq::new(
                stack@.len(),
                |i: int| self.layer_view(stack@, i),
            ));
        }
        Ok(bound)
    }
}

} // verus!
