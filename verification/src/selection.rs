//! What a click on the timeline selects: blocks (one, or several with a
//! modifier key), or a dependency edge.

use vstd::prelude::*;
use crate::model::{DependencyId, WorkBlockId};

verus! {

/// The selection on the timeline: the selected blocks (each once, in the
/// order they were selected), the block the inspector shows, and a selected
/// dependency edge.
#[derive(Debug)]
pub struct Selection {
    pub blocks: Vec<WorkBlockId>,
    pub main: Option<WorkBlockId>,
    pub dependency: Option<DependencyId>,
}

impl Default for Selection {
    /// Nothing selected.
    fn default() -> (r: Selection)
        ensures
            r.blocks@.len() == 0,
            r.main is None,
            r.dependency is None,
    {
        Selection { blocks: Vec::new(), main: None, dependency: None }
    }
}

/// The position of `id` in `ids`, if there.
fn position_of(ids: &Vec<WorkBlockId>, id: WorkBlockId) -> (r: Option<usize>)
    ensures
        match r {
            Some(i) => i < ids@.len() && ids@[i as int] == id,
            None => !ids@.contains(id),
        },
{
    let mut i: usize = 0;
    while i < ids.len()
        invariant
            i <= ids@.len(),
            forall|j: int| 0 <= j < i ==> ids@[j] != id,
        decreases ids.len() - i,
    {
        if ids[i] == id {
            return Some(i);
        }
        i += 1;
    }
    None
}

impl Selection {
    /// A click on block `id`. With a modifier (`additive`) the click
    /// toggles the block in the selection: an added block becomes the one
    /// shown, a removed one hands that to the first block left. A plain
    /// click selects the block alone, except that a block of a larger
    /// selection keeps the selection whole so that the group can be
    /// dragged. Either way the dependency edge is deselected.
    pub fn click_block(&mut self, id: WorkBlockId, additive: bool)
        requires
            old(self).blocks@.no_duplicates(),
        ensures
            final(self).blocks@.no_duplicates(),
            final(self).dependency is None,
            additive && old(self).blocks@.contains(id) ==> {
                &&& final(self).blocks@ == old(self).blocks@.remove_value(id)
                &&& final(self).main == if final(self).blocks@.len() > 0 { Some(final(self).blocks@[0]) } else { None }
            },
            additive && !old(self).blocks@.contains(id) ==> {
                &&& final(self).blocks@ == old(self).blocks@.push(id)
                &&& final(self).main == Some(id)
            },
            !additive ==> {
                &&& final(self).blocks@ == if old(self).blocks@.len() > 1 && old(self).blocks@.contains(id) {
                    old(self).blocks@
                } else {
                    seq![id]
                }
                &&& final(self).main == Some(id)
            },
    {
        match position_of(&self.blocks, id) {
            Some(i) => {
                if additive {
                    let ghost before = self.blocks@;
                    self.blocks.remove(i);
                    proof {
                        before.index_of_first_ensures(id);
                        assert(before.index_of_first(id) == Some(i as int)) by {
                            assert(before.no_duplicates());
                            let f = before.index_of_first(id).unwrap();
                            assert(before[f] == id);
                        }
                        assert(self.blocks@ =~= before.remove_value(id));
                        assert forall|a: int, b: int| 0 <= a < b < self.blocks@.len() implies self.blocks@[a] != self.blocks@[b] by {
                            let oa = if a < i { a } else { a + 1 };
                            let ob = if b < i { b } else { b + 1 };
                            assert(self.blocks@[a] == before[oa] && self.blocks@[b] == before[ob]);
                        }
                    }
                    self.main = if self.blocks.len() > 0 { Some(self.blocks[0]) } else { None };
                } else {
                    if self.blocks.len() <= 1 {
                        self.blocks = vec![id];
                        assert(self.blocks@ =~= seq![id]);
                    }
                    self.main = Some(id);
                }
            },
            None => {
                if additive {
                    let ghost before = self.blocks@;
                    self.blocks.push(id);
                    proof {
                        assert forall|a: int, b: int| 0 <= a < b < self.blocks@.len() implies self.blocks@[a] != self.blocks@[b] by {
                            if b == before.len() {
                                assert(before[a] != id);
                            } else {
                                assert(self.blocks@[a] == before[a] && self.blocks@[b] == before[b]);
                            }
                        }
                    }
                } else {
                    self.blocks = vec![id];
                    assert(self.blocks@ =~= seq![id]);
                }
                self.main = Some(id);
            },
        }
        self.dependency = None;
    }

    /// A click on dependency edge `dep`: it alone is selected.
    pub fn click_dependency(&mut self, dep: DependencyId)
        ensures
            final(self).dependency == Some(dep),
            final(self).main is None,
            final(self).blocks@.len() == 0,
    {
        self.dependency = Some(dep);
        self.main = None;
        self.blocks = Vec::new();
    }

    /// A press on empty canvas: the edge is deselected, and so are the
    /// blocks unless a marquee is being drawn (its release decides then).
    pub fn click_empty(&mut self, marquee_forming: bool)
        ensures
            final(self).dependency is None,
            marquee_forming ==> final(self).blocks == old(self).blocks && final(self).main == old(self).main,
            !marquee_forming ==> final(self).blocks@.len() == 0 && final(self).main is None,
    {
        self.dependency = None;
        if !marquee_forming {
            self.blocks = Vec::new();
            self.main = None;
        }
    }
}

} // verus!
