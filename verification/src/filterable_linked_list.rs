//! An array-backed doubly linked list over candidate indices whose filters
//! can be undone in reverse order, each undo restoring exactly what its
//! filter removed.

use crate::links::{
    lemma_fits_unique, lemma_fresh_fits, lemma_head_is_first, lemma_marker_pop,
    lemma_marker_push, lemma_next_is_successor, lemma_relink, lemma_unlink, next_fits, prev_fits,
    Links,
};
use crate::list_model::{
    lemma_frame_is_rejected, lemma_fresh_all_present, lemma_len_after_push,
    lemma_present_after_filter, lemma_present_facts, lemma_push_pop, ListModel,
};
use crate::seq_facts::increasing;
use crate::undo_log::{
    frames_of, is_live, lemma_frames_injective, lemma_frames_marker, lemma_frames_nonempty,
    lemma_frames_record, lemma_present_is_live, lemma_time_push, log_sound, marker_first,
    model_of, removal_time,
};
use vstd::prelude::*;

verus! {

/// A list of masks that keeps construction order while filters remove
/// elements and undos bring them back.
#[derive(Debug)]
pub struct FilterableLinkedList {
    items: Vec<u32>,
    first_index: Option<usize>,
    last_index: Option<usize>,
    next_indices: Vec<Option<usize>>,
    prev_indices: Vec<Option<usize>>,
    undo_frames: Vec<Option<usize>>,
    len: usize,
}

impl View for FilterableLinkedList {
    type V = ListModel;

    /// The masks the list was built from and the frames of its open filters.
    closed spec fn view(&self) -> ListModel {
        model_of(self.items@, self.undo_frames@)
    }
}

impl FilterableLinkedList {
    /// The link structure as it lies in memory.
    pub closed spec fn links(&self) -> Links {
        Links {
            next: self.next_indices@,
            prev: self.prev_indices@,
            head: self.first_index,
            tail: self.last_index,
            len: self.len as nat,
        }
    }

    /// The links and the undo log agree: the links chain the present indices
    /// in construction order, and every removed index still holds the
    /// neighbours it had when it left.
    pub closed spec fn wf(&self) -> bool {
        &&& self.next_indices@.len() == self.items@.len()
        &&& log_sound(self.undo_frames@, self.items@.len())
        &&& self.links().fits(self.undo_frames@)
    }

    /// A list holds no more elements than an index can number.
    pub proof fn lemma_size_bound(&self)
        requires
            self.wf(),
        ensures
            self@.items.len() <= usize::MAX,
    {
    }

    /// The state fixes the representation: two well-formed lists that stand
    /// for the same state hold the same links, down to the neighbours that
    /// every removed index remembers. So a list brought back to an earlier
    /// state by undos lies in memory as it did then.
    pub proof fn lemma_state_fixes_links(&self, other: &FilterableLinkedList)
        requires
            self.wf(),
            other.wf(),
            self@ == other@,
        ensures
            self.links() == other.links(),
    {
        lemma_frames_injective(self.undo_frames@, other.undo_frames@);
        lemma_fits_unique(self.links(), other.links(), self.undo_frames@);
    }

    /// A filter followed by its undo restores the list: where `self` is the
    /// list before a filter, `filtered` the list after it and `restored` the
    /// list after the undo, `restored` stands for the state of `self`, with
    /// the same present elements in the same order, and holds the same
    /// links.
    pub proof fn lemma_filter_undo_restores(
        &self,
        filtered: &FilterableLinkedList,
        restored: &FilterableLinkedList,
    )
        requires
            self.wf(),
            restored.wf(),
            filtered@ == self@.push_frame(filtered@.frames.last()),
            restored@ == filtered@.pop_frame(),
        ensures
            restored@ == self@,
            restored@.present() == self@.present(),
            restored@.masks() == self@.masks(),
            restored.links() == self.links(),
    {
        lemma_push_pop(self@, filtered@.frames.last());
        restored.lemma_state_fixes_links(self);
    }

    /// Builds the list over `items` in the given order, with every element
    /// present and no filter to undo.
    pub fn new(items: Vec<u32>) -> (list: FilterableLinkedList)
        ensures
            list.wf(),
            list@ == ListModel::fresh(items@),
            list@.present() == list@.indices(),
            list@.masks() == items@,
    {
        let len = items.len();
        let mut next_indices: Vec<Option<usize>> = Vec::with_capacity(len);
        let mut prev_indices: Vec<Option<usize>> = Vec::with_capacity(len);
        for i in 0..len
            invariant
                next_indices@.len() == i,
                prev_indices@.len() == i,
                forall|j: int|
                    0 <= j < i ==> next_indices@[j] == if j + 1 < len {
                        Some((j + 1) as usize)
                    } else {
                        None
                    },
                forall|j: int|
                    0 <= j < i ==> prev_indices@[j] == if j > 0 {
                        Some((j - 1) as usize)
                    } else {
                        None
                    },
        {
            next_indices.push(
                if i < len - 1 {
                    Some(i + 1)
                } else {
                    None
                },
            );
            prev_indices.push(
                if i > 0 {
                    Some(i - 1)
                } else {
                    None
                },
            );
        }
        let first_index = if len > 0 {
            Some(0)
        } else {
            None
        };
        let last_index = if len > 0 {
            Some(len - 1)
        } else {
            None
        };
        let list = FilterableLinkedList {
            items,
            first_index,
            last_index,
            next_indices,
            prev_indices,
            undo_frames: Vec::with_capacity(len.saturating_add(len)),
            len,
        };
        proof {
            lemma_fresh_all_present(list.items@);
            lemma_fresh_fits(len as nat);
            assert(list.links() =~= Links::fresh(len as nat));
            assert(list.undo_frames@ =~= Seq::empty());
        }
        list
    }

    /// The number of elements that are present.
    pub fn len(&self) -> (n: usize)
        requires
            self.wf(),
        ensures
            n == self@.present().len(),
    {
        proof {
            lemma_present_is_live(self.items@, self.undo_frames@);
        }
        self.len
    }

    /// The mask at `index` of the data that the list was built from, whether
    /// or not the element is present at the moment.
    pub fn get_at_unfiltered_index(&self, index: usize) -> (mask: u32)
        requires
            index < self@.items.len(),
        ensures
            mask == self@.items[index as int],
    {
        self.items[index]
    }

    /// The index of the first present element.
    pub fn first_index(&self) -> (first: Option<usize>)
        requires
            self.wf(),
        ensures
            first == self@.nth(0),
            first == self.links().head,
    {
        proof {
            lemma_present_is_live(self.items@, self.undo_frames@);
            lemma_head_is_first(self.links(), self.undo_frames@);
        }
        self.first_index
    }

    /// The `next` link of `index`. For a present element it leads to the
    /// present element that follows it; for a removed one, to the element
    /// that followed it when it left.
    pub fn next_index(&self, index: usize) -> (next: Option<usize>)
        requires
            self.wf(),
            index < self@.items.len(),
        ensures
            next == self.links().next[index as int],
            forall|k: int|
                0 <= k && #[trigger] self@.nth(k) == Some(index) ==> next == self@.nth(k + 1),
    {
        proof {
            lemma_present_is_live(self.items@, self.undo_frames@);
            assert forall|k: int|
                0 <= k && #[trigger] self@.nth(k) == Some(index) implies self.next_indices@[index as int]
                == self@.nth(k + 1) by {
                lemma_next_is_successor(self.links(), self.undo_frames@, k);
            }
        }
        self.next_indices[index]
    }

    /// Removes every present element that `check_item` turns down, and
    /// opens an undo frame that lists the removed indices in traversal
    /// order. Each present element is shown to `check_item` once, with its
    /// mask and its index, in construction order.
    pub fn filter<F: Fn(u32, usize) -> bool>(&mut self, check_item: F)
        requires
            old(self).wf(),
            forall|i: usize|
                old(self)@.is_present(i) ==> check_item.requires((old(self)@.items[i as int], i)),
        ensures
            final(self).wf(),
            final(self)@ == old(self)@.push_frame(final(self)@.frames.last()),
            final(self)@.present().len() + final(self)@.frames.last().len()
                == old(self)@.present().len(),
            increasing(final(self)@.frames.last()),
            forall|i: usize|
                final(self)@.frames.last().contains(i) ==> old(self)@.is_present(i)
                    && check_item.ensures((old(self)@.items[i as int], i), false),
            forall|i: usize|
                old(self)@.is_present(i) && !final(self)@.frames.last().contains(i)
                    ==> check_item.ensures((old(self)@.items[i as int], i), true),
            forall|keep: spec_fn(u32, usize) -> bool| #[trigger]
                computes(check_item, old(self)@, keep) ==> final(self)@ == old(self)@.filtered(
                    keep,
                ),
    {
        let ghost log0 = self.undo_frames@;
        let ghost items = self.items@;
        let ghost n = self.items@.len();
        let mut cursor = self.first_index;
        self.undo_frames.push(None);
        let ghost mut removed: Seq<usize> = Seq::empty();
        proof {
            lemma_present_is_live(items, log0);
            lemma_marker_push(old(self).links(), log0);
            lemma_time_push(log0, None);
            lemma_frames_marker(log0);
            assert(self.links() == old(self).links());
            assert forall|i: usize| i < n && #[trigger] removal_time(log0, i) == log0.len() implies check_item.requires(
                (items[i as int], i),
            ) by {
                assert(is_live(log0, i));
                assert(old(self)@.is_present(i));
            }
        }
        while cursor.is_some()
            invariant
                self.wf(),
                self.items@ == items,
                n == items.len(),
                marker_first(log0),
                self.undo_frames@.len() > 0,
                frames_of(self.undo_frames@) == frames_of(log0).push(removed),
                increasing(removed),
                forall|i: usize|
                    i < n && #[trigger] removal_time(log0, i) == log0.len() ==> check_item.requires(
                        (items[i as int], i),
                    ),
                match cursor {
                    Some(c) => c < n && is_live(self.undo_frames@, c),
                    None => true,
                },
                forall|m: usize|
                    boundary(cursor, n) <= m < n ==> (#[trigger] removal_time(self.undo_frames@, m)
                        == self.undo_frames@.len() <==> removal_time(log0, m) == log0.len()),
                forall|m: usize|
                    m < boundary(cursor, n) && #[trigger] removal_time(self.undo_frames@, m)
                        == self.undo_frames@.len() ==> removal_time(log0, m) == log0.len()
                        && check_item.ensures((items[m as int], m), true),
                forall|m: usize|
                    m < boundary(cursor, n) && #[trigger] removal_time(log0, m) == log0.len()
                        && removal_time(self.undo_frames@, m) != self.undo_frames@.len()
                        ==> removed.contains(m),
                forall|k: int|
                    0 <= k < removed.len() ==> (#[trigger] removed[k]) < boundary(cursor, n)
                        && removal_time(log0, removed[k]) == log0.len() && check_item.ensures(
                        (items[removed[k] as int], removed[k]),
                        false,
                    ),
            decreases n - boundary(cursor, n),
        {
            let cursor_index = cursor.unwrap();
            let ghost now = self.undo_frames@;
            let ghost links = self.links();
            proof {
                assert(next_fits(now, n, cursor_index, self.next_indices@[cursor_index as int]));
                assert(removal_time(now, cursor_index) == now.len());
                assert(removal_time(log0, cursor_index) == log0.len());
                lemma_time_push(now, None);
            }
            cursor = self.next_indices[cursor_index];
            let keep = check_item(self.items[cursor_index], cursor_index);
            if !keep {
                let old_prev = self.prev_indices[cursor_index];
                let old_next = self.next_indices[cursor_index];
                proof {
                    assert(prev_fits(now, cursor_index, old_prev));
                }
                if let Some(old_prev_index) = old_prev {
                    self.next_indices[old_prev_index] = old_next;
                } else {
                    self.first_index = old_next;
                }
                if let Some(old_next_index) = old_next {
                    self.prev_indices[old_next_index] = old_prev;
                } else {
                    self.last_index = old_prev;
                }
                proof {
                    lemma_unlink(links, now, cursor_index);
                }
                self.undo_frames.push(Some(cursor_index));
                self.len -= 1;
                proof {
                    assert(self.links() =~= links.unlink(cursor_index));
                    lemma_time_push(now, Some(cursor_index));
                    lemma_frames_record(now, cursor_index);
                    let frames = frames_of(now);
                    assert(frames.update(frames.len() - 1, frames.last().push(cursor_index))
                        =~= frames_of(log0).push(removed.push(cursor_index)));
                    let grown = removed.push(cursor_index);
                    assert(grown[removed.len() as int] == cursor_index);
                    assert forall|m: usize|
                        m < boundary(cursor, n) && #[trigger] removal_time(log0, m) == log0.len()
                            && removal_time(self.undo_frames@, m)
                            != self.undo_frames@.len() implies grown.contains(m) by {
                        if m < cursor_index {
                            if removal_time(now, m) != now.len() {
                                let k = choose|k: int| 0 <= k < removed.len() && removed[k] == m;
                                assert(grown[k] == m);
                            }
                        } else if m == cursor_index {
                        } else {
                            assert(removal_time(now, m) < now.len());
                        }
                    }
                    removed = grown;
                }
            } else {
                proof {
                    assert forall|m: usize|
                        m < boundary(cursor, n) && #[trigger] removal_time(log0, m) == log0.len()
                            && removal_time(now, m) != now.len() implies removed.contains(m) by {
                        if m > cursor_index {
                            assert(removal_time(now, m) < now.len());
                        }
                    }
                }
            }
        }
        proof {
            lemma_present_is_live(items, log0);
            let last = self@.frames.last();
            assert(frames_of(log0).push(removed).drop_last() =~= frames_of(log0));
            assert(last == removed);
            assert forall|i: usize| last.contains(i) implies old(self)@.is_present(i)
                && check_item.ensures((old(self)@.items[i as int], i), false) by {
                let k = choose|k: int| 0 <= k < removed.len() && removed[k] == i;
                assert(removed[k] < n);
                assert(is_live(log0, i));
            }
            assert forall|i: usize|
                old(self)@.is_present(i) && !last.contains(i) implies check_item.ensures(
                (old(self)@.items[i as int], i),
                true,
            ) by {
                assert(is_live(log0, i));
                assert(removal_time(log0, i) == log0.len());
                if removal_time(self.undo_frames@, i) != self.undo_frames@.len() {
                    assert(removed.contains(i));
                }
            }
            assert(self@ =~= old(self)@.push_frame(removed));
            lemma_len_after_push(old(self)@, removed);
            assert forall|keep: spec_fn(u32, usize) -> bool| #[trigger]
                computes(check_item, old(self)@, keep) implies self@ == old(self)@.filtered(
                keep,
            ) by {
                lemma_frame_is_rejected(old(self)@, removed, keep);
                assert(self@.frames =~= old(self)@.frames.push(removed));
            }
        }
    }

    /// Keeps the present elements whose index is above `min_index` and whose
    /// mask shares no bit with `word_bits`; removes the others into a new
    /// undo frame.
    pub fn filter_bkp(&mut self, min_index: usize, word_bits: u32)
        requires
            old(self).wf(),
        ensures
            final(self).wf(),
            final(self)@ == old(self)@.filtered(above_and_disjoint(min_index, word_bits)),
            final(self)@.present() == old(self)@.kept(above_and_disjoint(min_index, word_bits)),
    {
        let check_item = |mask: u32, index: usize| -> (keep: bool)
            ensures
                keep == above_and_disjoint(min_index, word_bits)(mask, index),
            { index > min_index && mask & word_bits == 0 };
        proof {
            assert(computes(check_item, self@, above_and_disjoint(min_index, word_bits)));
            lemma_present_after_filter(self@, above_and_disjoint(min_index, word_bits));
        }
        self.filter(check_item);
    }

    /// Undoes the newest filter not yet undone: its frame is closed and the
    /// indices it lists come back, newest removal first, each between the
    /// neighbours it had when it left. Without any filter to undo the list
    /// stays as it is.
    pub fn undo_last_filter(&mut self)
        requires
            old(self).wf(),
        ensures
            final(self).wf(),
            final(self)@ == old(self)@.pop_frame(),
    {
        let ghost log0 = self.undo_frames@;
        let ghost n = self.items@.len();
        proof {
            if log0.len() > 0 {
                lemma_frames_nonempty(log0);
            }
        }
        loop
            invariant_except_break
                self.wf(),
                log0 == old(self).undo_frames@,
                self.items@ == old(self).items@,
                n == self.items@.len(),
                log0.len() == 0 ==> self.undo_frames@ == log0,
                log0.len() > 0 ==> frames_of(self.undo_frames@).len() == frames_of(log0).len()
                    && frames_of(self.undo_frames@).drop_last() == frames_of(log0).drop_last(),
                log0.len() > 0 ==> frames_of(log0).len() > 0,
            ensures
                self.wf(),
                self@ == old(self)@.pop_frame(),
            decreases self.undo_frames@.len(),
        {
            let ghost now = self.undo_frames@;
            let ghost links = self.links();
            let entry = self.undo_frames.pop();
            let ghost rest = self.undo_frames@;
            proof {
                if now.len() > 0 {
                    assert(rest.push(now.last()) =~= now);
                    lemma_time_push(rest, now.last());
                    assert(now[0] is None);
                    if rest.len() > 0 {
                        assert(rest[0] == now[0]);
                    }
                    assert forall|j: int| 0 <= j < rest.len() implies match #[trigger] rest[j] {
                        Some(r) => r < n && removal_time(rest, r) == j,
                        None => true,
                    } by {
                        assert(rest[j] == now[j]);
                    }
                    assert(log_sound(rest, n));
                }
            }
            match entry {
                Some(Some(index)) => {
                    proof {
                        assert(now[now.len() - 1] == Some(index));
                        assert(is_live(rest, index));
                        lemma_relink(links, rest, index);
                        lemma_frames_record(rest, index);
                    }
                    let old_prev_opt = self.prev_indices[index];
                    let old_next_opt = self.next_indices[index];
                    proof {
                        assert(next_fits(now, n, index, old_next_opt));
                        assert(prev_fits(now, index, old_prev_opt));
                    }
                    if let Some(old_prev) = old_prev_opt {
                        self.next_indices[old_prev] = Some(index);
                    } else {
                        self.first_index = Some(index);
                    }
                    if let Some(old_next) = old_next_opt {
                        self.prev_indices[old_next] = Some(index);
                    } else {
                        self.last_index = Some(index);
                    }
                    self.len += 1;
                    proof {
                        assert(self.links() =~= links.relink(index));
                        let frames = frames_of(rest);
                        assert(frames.update(frames.len() - 1, frames.last().push(index)).drop_last()
                            =~= frames.drop_last());
                    }
                },
                Some(None) => {
                    proof {
                        lemma_marker_pop(links, rest);
                        lemma_frames_marker(rest);
                        assert(frames_of(rest).push(Seq::empty()).drop_last() =~= frames_of(rest));
                        assert(self@.frames == frames_of(log0).drop_last());
                        assert(self@ =~= old(self)@.pop_frame());
                    }
                    break ;
                },
                None => {
                    proof {
                        assert(now.len() == 0);
                        assert(rest == now);
                        assert(self@ =~= old(self)@.pop_frame());
                    }
                    break ;
                },
            }
        }
    }
}

impl FilterableLinkedList {
    /// A traversal of the present elements, from the first one.
    pub fn into_iter(&self) -> (iter: FilterableLinkedListIterator<'_>)
        requires
            self.wf(),
        ensures
            iter.wf(),
            iter.source() == *self,
            iter.position() == 0,
    {
        FilterableLinkedListIterator::new(self)
    }
}

/// A traversal of the present elements of a list, in construction order.
pub struct FilterableLinkedListIterator<'a> {
    source: &'a FilterableLinkedList,
    cursor: Option<usize>,
}

impl<'a> FilterableLinkedListIterator<'a> {
    /// The list that is traversed.
    pub closed spec fn source(&self) -> FilterableLinkedList {
        *self.source
    }

    /// The number of elements that the traversal has yielded.
    pub closed spec fn position(&self) -> int {
        match self.cursor {
            Some(c) => self.source@.present().index_of(c),
            None => self.source@.present().len() as int,
        }
    }

    /// The list is well formed and the cursor stands on a present element
    /// or past the last one.
    pub closed spec fn wf(&self) -> bool {
        &&& self.source.wf()
        &&& match self.cursor {
            Some(c) => self.source@.present().contains(c),
            None => true,
        }
    }

    /// The masks that the traversal has yet to yield.
    pub open spec fn remaining(&self) -> Seq<u32> {
        self.source()@.masks().skip(self.position())
    }

    /// A traversal of `source` that has yielded nothing yet.
    pub fn new(source: &'a FilterableLinkedList) -> (iter: FilterableLinkedListIterator<'a>)
        requires
            source.wf(),
        ensures
            iter.wf(),
            iter.source() == *source,
            iter.position() == 0,
    {
        let cursor = source.first_index();
        proof {
            lemma_present_facts(source@);
        }
        FilterableLinkedListIterator { source, cursor }
    }

    /// Yields the mask of the next present element, or `None` once every
    /// present element has been yielded.
    pub fn next(&mut self) -> (item: Option<u32>)
        requires
            old(self).wf(),
        ensures
            final(self).wf(),
            final(self).source() == old(self).source(),
            0 <= old(self).position() <= old(self).source()@.masks().len(),
            item == if old(self).position() < old(self).source()@.masks().len() {
                Some(old(self).source()@.masks()[old(self).position()])
            } else {
                None
            },
            final(self).position() == if old(self).position() < old(self).source()@.masks().len() {
                old(self).position() + 1
            } else {
                old(self).position()
            },
    {
        proof {
            lemma_present_facts(self.source@);
        }
        match self.cursor {
            Some(index) => {
                let ghost k = self.source@.present().index_of(index);
                proof {
                    assert(self.source@.nth(k) == Some(index));
                }
                let result = self.source.get_at_unfiltered_index(index);
                self.cursor = self.source.next_index(index);
                Some(result)
            },
            None => None,
        }
    }
}

/// `keep` says what `check_item` answers on every present element of `m`.
pub open spec fn computes<F: Fn(u32, usize) -> bool>(
    check_item: F,
    m: ListModel,
    keep: spec_fn(u32, usize) -> bool,
) -> bool {
    forall|i: usize, r: bool|
        m.is_present(i) && #[trigger] check_item.ensures((m.items[i as int], i), r) ==> r == keep(
            m.items[i as int],
            i,
        )
}

/// The condition of a backtracking step: the index lies above `min_index` and the
/// mask shares no bit with `word_bits`.
pub open spec fn above_and_disjoint(min_index: usize, word_bits: u32) -> spec_fn(
    u32,
    usize,
) -> bool {
    |mask: u32, index: usize| index > min_index && mask & word_bits == 0
}

/// Where a traversal stands: the index under the cursor, or `n` once the
/// traversal is over.
pub open spec fn boundary(cursor: Option<usize>, n: nat) -> nat {
    match cursor {
        Some(c) => c as nat,
        None => n,
    }
}

} // verus!
