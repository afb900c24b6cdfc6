//! The abstract state of a filterable list: the masks it was built from and
//! the frames of indices that the filters not yet undone have removed.

use crate::seq_facts::{
    increasing, lemma_filter_agree, lemma_filter_increasing, lemma_filter_members,
    lemma_filter_split_len, lemma_increasing_unique,
};
use vstd::prelude::*;

verus! {

/// What a filterable list stands for.
#[verifier::ext_equal]
pub struct ListModel {
    /// The mask of every index, present or not, in construction order.
    pub items: Seq<u32>,
    /// One frame per filter not yet undone, oldest first; a frame lists the
    /// indices that its filter removed, in removal order.
    pub frames: Seq<Seq<usize>>,
}

impl ListModel {
    /// The list right after construction from `items`.
    pub open spec fn fresh(items: Seq<u32>) -> ListModel {
        ListModel { items, frames: Seq::empty() }
    }

    /// Some open frame lists index `i`.
    pub open spec fn is_removed(self, i: usize) -> bool {
        exists|f: int| 0 <= f < self.frames.len() && #[trigger] self.frames[f].contains(i)
    }

    /// Index `i` belongs to the list and no open frame lists it.
    pub open spec fn is_present(self, i: usize) -> bool {
        i < self.items.len() && !self.is_removed(i)
    }

    /// Every index of the list, in construction order.
    pub open spec fn indices(self) -> Seq<usize> {
        Seq::new(self.items.len(), |i: int| i as usize)
    }

    /// The indices that are present, in construction order.
    pub open spec fn present(self) -> Seq<usize> {
        self.indices().filter(|i: usize| self.is_present(i))
    }

    /// The present index at position `k` of the traversal, if the traversal
    /// is that long.
    pub open spec fn nth(self, k: int) -> Option<usize> {
        if 0 <= k < self.present().len() {
            Some(self.present()[k])
        } else {
            None
        }
    }

    /// The masks of the present indices, in construction order: what
    /// iterating the list yields.
    pub open spec fn masks(self) -> Seq<u32> {
        self.present().map_values(|i: usize| self.items[i as int])
    }

    /// The state after a filter has removed `removed`.
    pub open spec fn push_frame(self, removed: Seq<usize>) -> ListModel {
        ListModel { items: self.items, frames: self.frames.push(removed) }
    }

    /// The state after the newest filter has been undone; without any open
    /// frame, the state itself.
    pub open spec fn pop_frame(self) -> ListModel {
        if self.frames.len() == 0 {
            self
        } else {
            ListModel { items: self.items, frames: self.frames.drop_last() }
        }
    }

    /// The present indices that `keep` accepts, in construction order.
    pub open spec fn kept(self, keep: spec_fn(u32, usize) -> bool) -> Seq<usize> {
        self.present().filter(|i: usize| keep(self.items[i as int], i))
    }

    /// The present indices that `keep` turns down, in construction order.
    pub open spec fn rejected(self, keep: spec_fn(u32, usize) -> bool) -> Seq<usize> {
        self.present().filter(|i: usize| !keep(self.items[i as int], i))
    }

    /// The state after a filter by `keep`.
    pub open spec fn filtered(self, keep: spec_fn(u32, usize) -> bool) -> ListModel {
        self.push_frame(self.rejected(keep))
    }
}

/// The present indices come in construction order and are exactly the
/// indices that `is_present` accepts.
pub proof fn lemma_present_facts(m: ListModel)
    requires
        m.items.len() <= usize::MAX,
    ensures
        increasing(m.present()),
        forall|i: usize| m.present().contains(i) <==> m.is_present(i),
        m.present().len() <= m.items.len(),
{
    let all = m.indices();
    let pred = |i: usize| m.is_present(i);
    lemma_filter_increasing(all, pred);
    lemma_filter_members(all, pred);
    all.lemma_filter_len(pred);
    assert forall|i: usize| m.present().contains(i) <==> m.is_present(i) by {
        if m.is_present(i) {
            assert(all[i as int] == i);
            assert(all.contains(i));
        }
    }
}

/// Right after construction every index is present, and the masks are the
/// items.
pub proof fn lemma_fresh_all_present(items: Seq<u32>)
    requires
        items.len() <= usize::MAX,
    ensures
        ListModel::fresh(items).present() == ListModel::fresh(items).indices(),
        ListModel::fresh(items).masks() == items,
{
    let m = ListModel::fresh(items);
    let all = m.indices();
    lemma_filter_agree(all, |i: usize| m.is_present(i), |i: usize| true);
    lemma_filter_split_len(all, |i: usize| true, |i: usize| false);
    all.lemma_all_neg_filter_empty(|i: usize| false);
    assert forall|a: int, b: int| 0 <= a < b < all.len() implies all[a] < all[b] by {}
    lemma_filter_increasing(all, |i: usize| true);
    lemma_filter_members(all, |i: usize| true);
    lemma_increasing_unique(all.filter(|i: usize| true), all);
    assert(m.masks() =~= items);
}

/// One more frame takes exactly its indices out of the present ones.
pub proof fn lemma_present_after_push(m: ListModel, removed: Seq<usize>)
    requires
        m.items.len() <= usize::MAX,
    ensures
        m.push_frame(removed).present() == m.present().filter(|i: usize| !removed.contains(i)),
{
    let after = m.push_frame(removed);
    let stay = |i: usize| !removed.contains(i);
    lemma_present_facts(m);
    lemma_present_facts(after);
    lemma_filter_increasing(m.present(), stay);
    lemma_filter_members(m.present(), stay);
    assert forall|i: usize| after.is_removed(i) <==> m.is_removed(i) || removed.contains(i) by {
        if after.is_removed(i) {
            let f = choose|f: int| 0 <= f < after.frames.len() && after.frames[f].contains(i);
            if f < m.frames.len() {
                assert(m.frames[f].contains(i));
            }
        }
        if m.is_removed(i) {
            let f = choose|f: int| 0 <= f < m.frames.len() && m.frames[f].contains(i);
            assert(after.frames[f].contains(i));
        }
        if removed.contains(i) {
            assert(after.frames[m.frames.len() as int].contains(i));
        }
    }
    assert forall|i: usize|
        after.present().contains(i) <==> m.present().filter(stay).contains(i) by {
        assert(after.is_removed(i) <==> m.is_removed(i) || removed.contains(i));
        assert(after.present().contains(i) <==> after.is_present(i));
        assert(m.present().contains(i) <==> m.is_present(i));
        assert(m.present().filter(stay).contains(i) <==> m.present().contains(i) && stay(i));
    }
    lemma_increasing_unique(after.present(), m.present().filter(stay));
}

/// After a filter by `keep`, the present indices are those that were
/// present and that `keep` accepts.
pub proof fn lemma_present_after_filter(m: ListModel, keep: spec_fn(u32, usize) -> bool)
    requires
        m.items.len() <= usize::MAX,
    ensures
        m.filtered(keep).present() == m.kept(keep),
        m.filtered(keep).pop_frame() == m,
{
    let gone = m.rejected(keep);
    let out = |i: usize| !keep(m.items[i as int], i);
    let good = |i: usize| keep(m.items[i as int], i);
    let stay = |i: usize| !gone.contains(i);
    lemma_present_after_push(m, gone);
    lemma_filter_members(m.present(), out);
    lemma_filter_agree(m.present(), stay, good);
    assert(m.frames.push(gone).drop_last() =~= m.frames);
}

/// A frame that lists, in construction order, exactly the present indices
/// that `keep` turns down is the frame of a filter by `keep`.
pub proof fn lemma_frame_is_rejected(
    m: ListModel,
    removed: Seq<usize>,
    keep: spec_fn(u32, usize) -> bool,
)
    requires
        m.items.len() <= usize::MAX,
        increasing(removed),
        forall|i: usize| removed.contains(i) ==> m.is_present(i) && !keep(m.items[i as int], i),
        forall|i: usize| m.is_present(i) && !removed.contains(i) ==> keep(m.items[i as int], i),
    ensures
        removed == m.rejected(keep),
{
    let out = |i: usize| !keep(m.items[i as int], i);
    lemma_present_facts(m);
    lemma_filter_increasing(m.present(), out);
    lemma_filter_members(m.present(), out);
    assert forall|i: usize| removed.contains(i) <==> m.rejected(keep).contains(i) by {
        assert(m.present().contains(i) <==> m.is_present(i));
        assert(m.rejected(keep).contains(i) <==> m.present().contains(i) && out(i));
    }
    lemma_increasing_unique(removed, m.rejected(keep));
}

/// Closing the frame that was opened last gives back the state from before
/// it was opened.
pub proof fn lemma_push_pop(m: ListModel, removed: Seq<usize>)
    ensures
        m.push_frame(removed).pop_frame() == m,
{
    assert(m.frames.push(removed).drop_last() =~= m.frames);
}

/// A filter by any predicate, undone right after, restores the state: the
/// same frames, hence the same present indices, the same masks in the same
/// order and the same length.
pub proof fn lemma_filter_undo_round_trip(m: ListModel, keep: spec_fn(u32, usize) -> bool)
    ensures
        m.filtered(keep).pop_frame() == m,
        m.filtered(keep).pop_frame().present() == m.present(),
        m.filtered(keep).pop_frame().masks() == m.masks(),
        m.filtered(keep).pop_frame().masks().len() == m.masks().len(),
{
    lemma_push_pop(m, m.rejected(keep));
}

/// Two filters undone twice restore the state as if neither had been
/// applied; undone once, they leave the removals of the first in effect.
pub proof fn lemma_nested_filters_undo(
    m: ListModel,
    first: spec_fn(u32, usize) -> bool,
    second: spec_fn(u32, usize) -> bool,
)
    ensures
        m.filtered(first).filtered(second).pop_frame() == m.filtered(first),
        m.filtered(first).filtered(second).pop_frame().pop_frame() == m,
{
    lemma_push_pop(m.filtered(first), m.filtered(first).rejected(second));
    lemma_push_pop(m, m.rejected(first));
}

/// Whatever filters and undos came before, the masks stand in construction
/// order: the sequence of masks is the sequence of items restricted to the
/// present indices, which come in increasing order.
pub proof fn lemma_order_preserved(m: ListModel)
    requires
        m.items.len() <= usize::MAX,
    ensures
        increasing(m.present()),
        m.masks().len() == m.present().len(),
        forall|k: int|
            0 <= k < m.present().len() ==> m.is_present(#[trigger] m.present()[k]) && m.masks()[k]
                == m.items[m.present()[k] as int],
        forall|i: usize| m.is_present(i) ==> m.present().contains(i),
{
    lemma_present_facts(m);
    assert forall|k: int| 0 <= k < m.present().len() implies m.is_present(
        #[trigger] m.present()[k],
    ) by {
        assert(m.present().contains(m.present()[k]));
    }
}

/// A frame of present indices, none listed twice, shortens the list by its
/// own length.
pub proof fn lemma_len_after_push(m: ListModel, removed: Seq<usize>)
    requires
        m.items.len() <= usize::MAX,
        increasing(removed),
        forall|i: usize| removed.contains(i) ==> m.is_present(i),
    ensures
        m.push_frame(removed).present().len() + removed.len() == m.present().len(),
{
    let stay = |i: usize| !removed.contains(i);
    let go = |i: usize| removed.contains(i);
    lemma_present_after_push(m, removed);
    lemma_present_facts(m);
    lemma_filter_increasing(m.present(), go);
    lemma_filter_members(m.present(), go);
    assert forall|i: usize| removed.contains(i) <==> m.present().filter(go).contains(i) by {
        assert(m.present().contains(i) <==> m.is_present(i));
    }
    lemma_increasing_unique(removed, m.present().filter(go));
    lemma_filter_split_len(m.present(), stay, go);
}

/// After a filter by `keep` the length is the number of elements, among
/// those that were present, that `keep` accepts; the others are the frame.
pub proof fn lemma_len_after_filter(m: ListModel, keep: spec_fn(u32, usize) -> bool)
    requires
        m.items.len() <= usize::MAX,
    ensures
        m.filtered(keep).present().len() == m.kept(keep).len(),
        m.kept(keep).len() + m.rejected(keep).len() == m.present().len(),
        m.filtered(keep).pop_frame().present().len() == m.present().len(),
{
    lemma_present_after_filter(m, keep);
    lemma_filter_split_len(
        m.present(),
        |i: usize| keep(m.items[i as int], i),
        |i: usize| !keep(m.items[i as int], i),
    );
}

} // verus!
