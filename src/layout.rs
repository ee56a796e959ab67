use vstd::prelude::*;

use crate::model::{Layer, NUM_LAYERS};

verus! {

/// The stack of active layers: `layers[..end_ptr]` are active, bottom first.
pub struct State {
    layers: [Option<Layer>; NUM_LAYERS],
    end_ptr: usize,
}

impl State {
    /// The stack is at most `NUM_LAYERS` deep and its slots above the top are empty.
    pub closed spec fn wf(&self) -> bool {
        &&& self.end_ptr <= NUM_LAYERS
        &&& forall|i: int| 0 <= i < self.end_ptr ==> (#[trigger] self.layers[i]) is Some
        &&& forall|i: int| self.end_ptr <= i < NUM_LAYERS ==> (#[trigger] self.layers[i]) is None
    }

    /// The active layers, bottom first.
    pub closed spec fn stack(&self) -> Seq<Layer> {
        Seq::new(self.end_ptr as nat, |i: int| self.layers[i]->Some_0)
    }

    /// An empty stack.
    pub fn new() -> (r: State)
        ensures
            r.wf(),
            r.stack() == Seq::<Layer>::empty(),
    {
        let r = State { layers: [None; NUM_LAYERS], end_ptr: 0 };
        assert(r.stack() =~= Seq::<Layer>::empty());
        r
    }

    /// Activates `layer` on top of the others; returns `false`, changing
    /// nothing, when `NUM_LAYERS` layers are active already.
    pub fn push_layer(&mut self, layer: Layer) -> (r: bool)
        requires
            old(self).wf(),
        ensures
            final(self).wf(),
            r == (old(self).stack().len() < NUM_LAYERS),
            r ==> final(self).stack() == old(self).stack().push(layer),
            !r ==> final(self).stack() == old(self).stack(),
    {
        if self.end_ptr < NUM_LAYERS {
            let ghost before = self.stack();
            self.layers.set(self.end_ptr, Some(layer));
            self.end_ptr = self.end_ptr + 1;
            assert(self.stack() =~= before.push(layer));
            true
        } else {
            false
        }
    }

    /// Deactivates the top layer and returns it; `None` on an empty stack.
    pub fn pop_layer(&mut self) -> (r: Option<Layer>)
        requires
            old(self).wf(),
        ensures
            final(self).wf(),
            old(self).stack().len() == 0 ==> r is None && final(self).stack() == old(self).stack(),
            old(self).stack().len() > 0 ==> r == Some(old(self).stack().last())
                && final(self).stack() == old(self).stack().drop_last(),
    {
        if self.end_ptr == 0 {
            return None;
        }
        let ghost before = self.stack();
        let top = self.end_ptr - 1;
        let res = self.layers[top];
        self.layers.set(top, None);
        self.end_ptr = top;
        assert(self.stack() =~= before.drop_last());
        res
    }
}

} // verus!
