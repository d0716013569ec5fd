//! The scope tree: an arena of mount points.  Each node carries its full
//! URI prefix, its ancestor chain from the root, an optional fallback, the
//! typed values set on it and its handler-wrapping modifiers.

use vstd::prelude::*;
use crate::uri::{Segment, render_path};

verus! {

/// The identity of a scope: the implicit global scope, or the n-th scope
/// created during configuration.
#[derive(Clone, Copy, Debug, PartialEq, Eq, Structural)]
pub enum ScopeId {
    Global,
    Local(usize),
}

impl ScopeId {
    /// The arena index of the scope: the global scope sits at 0.
    pub open spec fn index_spec(self) -> int {
        match self {
            ScopeId::Global => 0,
            ScopeId::Local(k) => k + 1,
        }
    }

    /// The scope identity of an arena index.
    pub open spec fn from_index_spec(i: int) -> ScopeId {
        if i == 0 {
            ScopeId::Global
        } else {
            ScopeId::Local((i - 1) as usize)
        }
    }

    /// Builds the scope identity of an arena index.
    pub fn from_index(i: usize) -> (r: ScopeId)
        ensures
            r == ScopeId::from_index_spec(i as int),
    {
        if i == 0 {
            ScopeId::Global
        } else {
            ScopeId::Local(i - 1)
        }
    }
}

/// One mount point.
#[derive(Debug)]
pub struct ScopeNode {
    /// The full URI prefix of the scope, prefixes of the ancestors included.
    pub prefix: Vec<Segment>,
    /// The rendered text of `prefix`.
    pub prefix_text: String,
    /// The arena index of the parent; the root is its own parent.
    pub parent: usize,
    /// The arena indices from the root down to this scope, this scope last.
    pub ancestors: Vec<usize>,
    /// The fallback handler set on this scope, if any.
    pub fallback: Option<usize>,
    /// The typed values set on this scope: a type tag and the value.
    pub states: Vec<(u64, String)>,
    /// The modifiers set on this scope, in registration order.
    pub modifiers: Vec<usize>,
}

/// The arena of scopes; index 0 is the global scope.
#[derive(Debug)]
pub struct Arena {
    pub nodes: Vec<ScopeNode>,
}

/// The value set for `tag` directly on one node, if any: the first entry
/// with that tag.
pub open spec fn node_state(states: Seq<(u64, Seq<char>)>, tag: u64) -> Option<Seq<char>>
    decreases states.len(),
{
    if states.len() == 0 {
        None
    } else if states[0].0 == tag {
        Some(states[0].1)
    } else {
        node_state(states.drop_first(), tag)
    }
}

impl Arena {
    pub open spec fn len_spec(self) -> int {
        self.nodes@.len() as int
    }

    pub open spec fn node(self, i: int) -> ScopeNode {
        self.nodes@[i]
    }

    /// The ancestor chain of node `i`, as a sequence of indices.
    pub open spec fn anc(self, i: int) -> Seq<usize> {
        self.nodes@[i].ancestors@
    }

    /// The model of the states of node `i`.
    pub open spec fn states_at(self, i: int) -> Seq<(u64, Seq<char>)> {
        self.nodes@[i].states@.map_values(|e: (u64, String)| (e.0, e.1@))
    }

    /// Well-formed arena: a root at 0 that is its own parent, every other
    /// node created after its parent, ancestor chains that extend the
    /// parent's chain by the node itself, and rendered prefix texts.
    pub open spec fn wf(self) -> bool {
        &&& self.len_spec() >= 1
        &&& self.node(0).parent == 0
        &&& self.anc(0) =~= seq![0usize]
        &&& forall|i: int| 1 <= i < self.len_spec()
            ==> (#[trigger] self.node(i).parent) < i
        &&& forall|i: int| 1 <= i < self.len_spec()
            ==> #[trigger] self.anc(i) =~= self.anc(self.node(i).parent as int).push(i as usize)
        &&& forall|i: int| 0 <= i < self.len_spec() ==> {
            &&& (#[trigger] self.anc(i)).len() >= 1
            &&& self.anc(i)[0] == 0usize
            &&& self.anc(i).last() == i as usize
            &&& forall|t: int| 0 <= t < self.anc(i).len()
                ==> (#[trigger] self.anc(i)[t]) as int <= i
            &&& forall|a: int, b: int| 0 <= a < b < self.anc(i).len()
                ==> self.anc(i)[a] < self.anc(i)[b]
        }
        &&& forall|i: int| 0 <= i < self.len_spec()
            ==> (#[trigger] self.node(i).prefix_text@)
                == render_path(self.node(i).prefix@.map_values(|g: Segment| g@))
    }

    /// A fresh arena holding only the global scope with the given prefix.
    pub fn new(prefix: Vec<Segment>) -> (r: Arena)
        ensures
            r.wf(),
            r.len_spec() == 1,
            r.node(0).prefix@.map_values(|g: Segment| g@)
                == prefix@.map_values(|g: Segment| g@),
            r.node(0).fallback.is_none(),
            r.states_at(0) =~= Seq::<(u64, Seq<char>)>::empty(),
    {
        let prefix_text = crate::uri::render(&prefix);
        let mut ancestors: Vec<usize> = Vec::new();
        ancestors.push(0);
        let root = ScopeNode {
            prefix,
            prefix_text,
            parent: 0,
            ancestors,
            fallback: None,
            states: Vec::new(),
            modifiers: Vec::new(),
        };
        let mut nodes: Vec<ScopeNode> = Vec::new();
        nodes.push(root);
        let r = Arena { nodes };
        proof {
            assert(r.anc(0) =~= seq![0usize]);
        }
        r
    }

    /// Creates a child scope of `parent` with the given full prefix.
    #[verifier::rlimit(60)]
    pub fn new_scope(&mut self, parent: usize, prefix: Vec<Segment>) -> (r: usize)
        requires
            old(self).wf(),
            0 <= parent < old(self).len_spec(),
        ensures
            final(self).wf(),
            r == old(self).len_spec(),
            final(self).len_spec() == old(self).len_spec() + 1,
            forall|i: int| 0 <= i < old(self).len_spec()
                ==> #[trigger] final(self).node(i) == old(self).node(i),
            final(self).node(r as int).parent == parent,
            final(self).node(r as int).prefix@.map_values(|g: Segment| g@)
                == prefix@.map_values(|g: Segment| g@),
            final(self).node(r as int).fallback.is_none(),
            final(self).states_at(r as int) =~= Seq::<(u64, Seq<char>)>::empty(),
            final(self).anc(r as int) =~= old(self).anc(parent as int).push(r as usize),
    {
        let id = self.nodes.len();
        let prefix_text = crate::uri::render(&prefix);
        let mut ancestors: Vec<usize> = Vec::new();
        let parent_anc_len = self.nodes[parent].ancestors.len();
        let mut t: usize = 0;
        while t < parent_anc_len
            invariant
                *self == *old(self),
                self.wf(),
                parent < self.len_spec(),
                parent_anc_len == self.anc(parent as int).len(),
                t <= parent_anc_len,
                ancestors@ =~= self.anc(parent as int).take(t as int),
            decreases parent_anc_len - t,
        {
            let a = self.nodes[parent].ancestors[t];
            ancestors.push(a);
            proof {
                assert(ancestors@ =~= self.anc(parent as int).take(t as int + 1));
            }
            t = t + 1;
        }
        proof {
            assert(ancestors@ =~= self.anc(parent as int));
        }
        ancestors.push(id);
        let node = ScopeNode {
            prefix,
            prefix_text,
            parent,
            ancestors,
            fallback: None,
            states: Vec::new(),
            modifiers: Vec::new(),
        };
        let ghost old_nodes = self.nodes@;
        self.nodes.push(node);
        proof {
            assert forall|i: int| 0 <= i < old_nodes.len()
                implies #[trigger] self.node(i) == old(self).node(i) by {
                assert(self.nodes@[i] == old_nodes[i]);
            }
            assert(self.anc(id as int) =~= old(self).anc(parent as int).push(id as usize));
            assert forall|i: int| 1 <= i < self.len_spec()
                implies #[trigger] self.anc(i)
                    =~= self.anc(self.node(i).parent as int).push(i as usize) by {
                if i < id {
                    assert(old(self).anc(i)
                        =~= old(self).anc(old(self).node(i).parent as int).push(i as usize));
                }
            }
            let na = self.anc(id as int);
            let pa = old(self).anc(parent as int);
            assert(na.len() >= 1);
            assert(na[0] == 0usize) by {
                assert(pa[0] == 0usize);
            }
            assert(na.last() == id as usize);
            assert forall|t: int| 0 <= t < na.len()
                implies (#[trigger] na[t]) as int <= id as int by {
                if t < pa.len() {
                    assert(pa[t] as int <= parent as int);
                }
            }
            assert forall|a: int, b: int| 0 <= a < b < na.len()
                implies na[a] < na[b] by {
                if b < pa.len() {
                    assert(pa[a] < pa[b]);
                } else {
                    assert(pa[a] as int <= parent as int);
                }
            }
            assert forall|i: int| 0 <= i < self.len_spec() implies {
                &&& (#[trigger] self.anc(i)).len() >= 1
                &&& self.anc(i)[0] == 0usize
                &&& self.anc(i).last() == i as usize
                &&& forall|t: int| 0 <= t < self.anc(i).len()
                    ==> (#[trigger] self.anc(i)[t]) as int <= i
                &&& forall|a: int, b: int| 0 <= a < b < self.anc(i).len()
                    ==> self.anc(i)[a] < self.anc(i)[b]
            } by {
                if i < id {
                    assert(self.anc(i) == old(self).anc(i));
                    assert(old(self).anc(i).len() >= 1);
                }
            }
            assert forall|i: int| 0 <= i < self.len_spec()
                implies (#[trigger] self.node(i).prefix_text@)
                    == render_path(self.node(i).prefix@.map_values(|g: Segment| g@)) by {
                if i < id {
                    assert(self.node(i) == old(self).node(i));
                    assert(old(self).node(i).prefix_text@
                        == render_path(old(self).node(i).prefix@.map_values(|g: Segment| g@)));
                }
            }
        }
        id
    }

    /// The value that scope `i` observes for `tag`: its own entry, or the
    /// nearest ancestor's.
    pub open spec fn chain_state(self, anc: Seq<usize>, tag: u64) -> Option<Seq<char>>
        decreases anc.len(),
    {
        if anc.len() == 0 {
            None
        } else {
            match node_state(self.states_at(anc.last() as int), tag) {
                Some(v) => Some(v),
                None => self.chain_state(anc.drop_last(), tag),
            }
        }
    }

    pub open spec fn effective_state(self, i: int, tag: u64) -> Option<Seq<char>> {
        self.chain_state(self.anc(i), tag)
    }

    /// Looks `tag` up directly on one node.
    fn own_state(&self, i: usize, tag: u64) -> (r: Option<String>)
        requires
            0 <= i < self.len_spec(),
        ensures
            match r {
                Some(v) => node_state(self.states_at(i as int), tag)
                    == Some::<Seq<char>>(v@),
                None => node_state(self.states_at(i as int), tag)
                    is None,
            },
    {
        let ghost states = self.states_at(i as int);
        let n = self.nodes[i].states.len();
        let mut k: usize = 0;
        proof {
            assert(states.skip(0) =~= states);
        }
        while k < n
            invariant
                k <= n,
                0 <= i < self.len_spec(),
                n == self.nodes@[i as int].states@.len(),
                states == self.states_at(i as int),
                node_state(states.skip(k as int), tag) == node_state(states, tag),
            decreases n - k,
        {
            proof {
                assert(states.skip(k as int)[0] == states[k as int]);
                assert(states.skip(k as int).drop_first() =~= states.skip(k as int + 1));
            }
            let entry_tag = self.nodes[i].states[k].0;
            if entry_tag == tag {
                let v = self.nodes[i].states[k].1.clone();
                proof {
                    assert(v@ == states[k as int].1);
                }
                return Some(v);
            }
            k = k + 1;
        }
        proof {
            assert(states.skip(n as int) =~= Seq::<(u64, Seq<char>)>::empty());
        }
        None
    }

    /// The value that the scope at arena index `i` observes for `tag`:
    /// the nearest entry on the chain from the scope up to the root.
    pub fn get_state(&self, i: usize, tag: u64) -> (r: Option<String>)
        requires
            self.wf(),
            0 <= i < self.len_spec(),
        ensures
            match r {
                Some(v) => self.effective_state(i as int, tag) == Some::<Seq<char>>(v@),
                None => self.effective_state(i as int, tag) is None,
            },
    {
        let ghost full = self.anc(i as int);
        let n = self.nodes[i].ancestors.len();
        let mut k: usize = n;
        proof {
            assert(full.take(n as int) =~= full);
        }
        while k > 0
            invariant
                0 <= k <= n,
                0 <= i < self.len_spec(),
                self.wf(),
                n == self.anc(i as int).len(),
                full == self.anc(i as int),
                self.chain_state(full.take(k as int), tag) == self.effective_state(i as int, tag),
            decreases k,
        {
            let ghost chain = full.take(k as int);
            proof {
                assert(chain.last() == full[k as int - 1]);
                assert(chain.drop_last() =~= full.take(k as int - 1));
            }
            let a = self.nodes[i].ancestors[k - 1];
            proof {
                assert(a as int <= i);
            }
            match self.own_state(a, tag) {
                Some(v) => {
                    return Some(v);
                },
                None => {},
            }
            k = k - 1;
        }
        proof {
            assert(full.take(0) =~= Seq::<usize>::empty());
        }
        None
    }

    /// The fallback that serves scope `start`: its own, or the nearest
    /// ancestor's.
    pub open spec fn chain_fallback(self, anc: Seq<usize>) -> Option<usize>
        decreases anc.len(),
    {
        if anc.len() == 0 {
            None
        } else {
            match self.node(anc.last() as int).fallback {
                Some(f) => Some(f),
                None => self.chain_fallback(anc.drop_last()),
            }
        }
    }

    pub open spec fn effective_fallback(self, i: int) -> Option<usize> {
        self.chain_fallback(self.anc(i))
    }

    /// Walks from `start` up through its ancestors, innermost first, and
    /// returns the first fallback found.
    pub fn find_fallback(&self, start: usize) -> (r: Option<usize>)
        requires
            self.wf(),
            0 <= start < self.len_spec(),
        ensures
            r == self.effective_fallback(start as int),
    {
        let ghost full = self.anc(start as int);
        let n = self.nodes[start].ancestors.len();
        let mut k: usize = n;
        proof {
            assert(full.take(n as int) =~= full);
        }
        while k > 0
            invariant
                0 <= k <= n,
                0 <= start < self.len_spec(),
                self.wf(),
                n == self.anc(start as int).len(),
                full == self.anc(start as int),
                self.chain_fallback(full.take(k as int)) == self.effective_fallback(start as int),
            decreases k,
        {
            let ghost chain = full.take(k as int);
            proof {
                assert(chain.last() == full[k as int - 1]);
                assert(chain.drop_last() =~= full.take(k as int - 1));
            }
            let a = self.nodes[start].ancestors[k - 1];
            proof {
                assert(a as int <= start);
            }
            match self.nodes[a].fallback {
                Some(f) => {
                    return Some(f);
                },
                None => {},
            }
            k = k - 1;
        }
        proof {
            assert(full.take(0) =~= Seq::<usize>::empty());
        }
        None
    }
}

/// Scope state inheritance: a scope with no entry of its own for a tag
/// observes exactly what its parent observes for that tag.
pub proof fn lemma_state_inherited(arena: Arena, child: usize, tag: u64)
    requires
        arena.wf(),
        1 <= child < arena.len_spec(),
        node_state(arena.states_at(child as int), tag) is None,
    ensures
        arena.effective_state(child as int, tag)
            == arena.effective_state(arena.node(child as int).parent as int, tag),
{
    let parent = arena.node(child as int).parent as int;
    let chain = arena.anc(child as int);
    assert(chain =~= arena.anc(parent).push(child));
    assert(chain.last() == child);
    assert(chain.drop_last() =~= arena.anc(parent));
    assert(arena.chain_state(chain, tag)
        == arena.chain_state(arena.anc(parent), tag));
}

} // verus!
