//! The append-only collection of built automatons, addressed by handle.
use vstd::prelude::*;
use crate::automaton::Automaton;

verus! {

/// Handles are indices in order of registration, starting at 0.
pub struct Registry {
    matchers: Vec<Automaton>,
}

impl Registry {
    /// The pattern set of each registered automaton, by handle.
    pub closed spec fn pattern_sets(&self) -> Seq<Seq<Seq<u8>>> {
        self.matchers@.map_values(|a: Automaton| a.patterns())
    }

    pub closed spec fn wf(&self) -> bool {
        forall|i: int| 0 <= i < self.matchers@.len() ==> (#[trigger] self.matchers@[i]).wf()
    }

    pub fn new() -> (r: Self)
        ensures
            r.wf(),
            r.pattern_sets() == Seq::<Seq<Seq<u8>>>::empty(),
    {
        let r = Registry { matchers: Vec::new() };
        assert(r.pattern_sets() =~= Seq::<Seq<Seq<u8>>>::empty());
        r
    }

    /// Number of registered automatons.
    pub fn len(&self) -> (r: usize)
        ensures
            r == self.pattern_sets().len(),
    {
        self.matchers.len()
    }

    /// Appends `a` and returns its handle.
    pub fn register(&mut self, a: Automaton) -> (h: usize)
        requires
            old(self).wf(),
            a.wf(),
        ensures
            final(self).wf(),
            h == old(self).pattern_sets().len(),
            final(self).pattern_sets() == old(self).pattern_sets().push(a.patterns()),
    {
        let h = self.matchers.len();
        let ghost before = self.matchers@;
        self.matchers.push(a);
        assert(self.pattern_sets() =~= before.map_values(|a: Automaton| a.patterns()).push(a.patterns()));
        h
    }

    /// The automaton registered under `handle`, if there is one.
    pub fn get(&self, handle: usize) -> (r: Option<&Automaton>)
        requires
            self.wf(),
        ensures
            r.is_some() <==> handle < self.pattern_sets().len(),
            r.is_some() ==> r.unwrap().wf() && r.unwrap().patterns() == self.pattern_sets()[handle as int],
    {
        if handle < self.matchers.len() {
            Some(&self.matchers[handle])
        } else {
            None
        }
    }
}

} // verus!
