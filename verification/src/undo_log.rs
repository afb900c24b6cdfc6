//! The flat undo log of a filterable list, as a mathematical sequence.
//!
//! A log entry `None` opens a frame; an entry `Some(i)` records that index `i`
//! left the list while that frame was the newest one.

use crate::list_model::{lemma_present_facts, ListModel};
use crate::seq_facts::{increasing, lemma_increasing_unique};
use vstd::prelude::*;

verus! {

/// Position in `log` of the first record of index `i`, or `log.len()` when
/// the log holds no record of `i`.
pub open spec fn removal_time(log: Seq<Option<usize>>, i: usize) -> int
    decreases log.len(),
{
    if log.len() == 0 {
        0
    } else {
        let before = removal_time(log.drop_last(), i);
        if before < log.len() - 1 {
            before
        } else if log.last() == Some(i) {
            log.len() - 1
        } else {
            log.len() as int
        }
    }
}

/// Index `i` has no record in `log`.
pub open spec fn is_live(log: Seq<Option<usize>>, i: usize) -> bool {
    removal_time(log, i) == log.len()
}

/// A log over `n` indices is sound when it starts with a frame marker, every
/// recorded index is below `n`, and no index is recorded twice.
pub open spec fn log_sound(log: Seq<Option<usize>>, n: nat) -> bool {
    &&& marker_first(log)
    &&& forall|j: int|
        0 <= j < log.len() ==> match #[trigger] log[j] {
            Some(r) => r < n && removal_time(log, r) == j,
            None => true,
        }
}

/// The frames that a flat log spells out, oldest first.
pub open spec fn frames_of(log: Seq<Option<usize>>) -> Seq<Seq<usize>>
    decreases log.len(),
{
    if log.len() == 0 {
        Seq::empty()
    } else {
        let rest = frames_of(log.drop_last());
        match log.last() {
            None => rest.push(Seq::empty()),
            Some(i) => if rest.len() == 0 {
                rest
            } else {
                rest.update(rest.len() - 1, rest.last().push(i))
            },
        }
    }
}

/// A removal time lies within the log, points at a record of its index, and
/// no earlier entry records that index.
pub proof fn lemma_time_facts(log: Seq<Option<usize>>, i: usize)
    ensures
        0 <= removal_time(log, i) <= log.len(),
        removal_time(log, i) < log.len() ==> log[removal_time(log, i)] == Some(i),
        forall|j: int| 0 <= j < removal_time(log, i) ==> log[j] != Some(i),
    decreases log.len(),
{
    if log.len() > 0 {
        let init = log.drop_last();
        lemma_time_facts(init, i);
        assert forall|j: int| 0 <= j < removal_time(log, i) implies log[j] != Some(i) by {
            if j < init.len() {
                assert(init[j] == log[j]);
            }
        }
    }
}

/// The removal time of `i` once `e` has been appended to `log`.
pub open spec fn time_after_push(log: Seq<Option<usize>>, e: Option<usize>, i: usize) -> int {
    if removal_time(log, i) < log.len() {
        removal_time(log, i)
    } else if e == Some(i) {
        log.len() as int
    } else {
        (log.len() + 1) as int
    }
}

/// How one more entry moves every removal time.
pub proof fn lemma_time_push(log: Seq<Option<usize>>, e: Option<usize>)
    ensures
        forall|i: usize|
            #![trigger removal_time(log.push(e), i)]
            #![trigger removal_time(log, i)]
            removal_time(log.push(e), i) == time_after_push(log, e, i) && 0 <= removal_time(log, i)
                <= log.len(),
{
    assert(log.push(e).drop_last() =~= log);
    assert forall|i: usize|
        #![trigger removal_time(log.push(e), i)]
        #![trigger removal_time(log, i)]
        removal_time(log.push(e), i) == time_after_push(log, e, i) && 0 <= removal_time(log, i)
            <= log.len() by {
        lemma_time_facts(log, i);
    }
}

/// The live indices below `k`, in increasing order.
pub open spec fn live_below(log: Seq<Option<usize>>, k: nat) -> Seq<usize>
    decreases k,
{
    if k == 0 {
        Seq::empty()
    } else {
        let rest = live_below(log, (k - 1) as nat);
        if is_live(log, (k - 1) as usize) {
            rest.push((k - 1) as usize)
        } else {
            rest
        }
    }
}

/// The live indices below `k` come in increasing order and are exactly the
/// indices below `k` without a record.
pub proof fn lemma_live_below_facts(log: Seq<Option<usize>>, k: nat)
    requires
        k <= usize::MAX + 1,
    ensures
        increasing(live_below(log, k)),
        live_below(log, k).len() <= k,
        forall|j: int|
            0 <= j < live_below(log, k).len() ==> (#[trigger] live_below(log, k)[j]) < k
                && is_live(log, live_below(log, k)[j]),
        forall|i: usize| i < k && is_live(log, i) ==> live_below(log, k).contains(i),
    decreases k,
{
    if k > 0 {
        let rest = live_below(log, (k - 1) as nat);
        let top = (k - 1) as usize;
        lemma_live_below_facts(log, (k - 1) as nat);
        let all = live_below(log, k);
        assert forall|i: usize| i < k && is_live(log, i) implies all.contains(i) by {
            if i == top {
                assert(all[all.len() - 1] == top);
            } else {
                let j = choose|j: int| 0 <= j < rest.len() && rest[j] == i;
                assert(all[j] == i);
            }
        }
    }
}

/// A marker entry leaves the live indices as they were.
pub proof fn lemma_live_below_marker(log: Seq<Option<usize>>, k: nat)
    requires
        k <= usize::MAX + 1,
    ensures
        live_below(log.push(None), k) == live_below(log, k),
    decreases k,
{
    lemma_time_push(log, None);
    if k > 0 {
        lemma_live_below_marker(log, (k - 1) as nat);
        lemma_time_facts(log, (k - 1) as usize);
    }
}

/// A record of the live index `c` takes one index out of the live ones.
pub proof fn lemma_live_below_record(log: Seq<Option<usize>>, c: usize, k: nat)
    requires
        is_live(log, c),
        k <= usize::MAX + 1,
    ensures
        live_below(log.push(Some(c)), k).len() + (if c < k { 1int } else { 0int })
            == live_below(log, k).len(),
    decreases k,
{
    lemma_time_push(log, Some(c));
    if k > 0 {
        lemma_live_below_record(log, c, (k - 1) as nat);
        lemma_time_facts(log, (k - 1) as usize);
    }
}

/// The log opens with a frame marker, so that every record lies in a frame.
pub open spec fn marker_first(log: Seq<Option<usize>>) -> bool {
    log.len() > 0 ==> log[0] is None
}

/// The state that a list with masks `items` and undo log `log` stands for.
pub open spec fn model_of(items: Seq<u32>, log: Seq<Option<usize>>) -> ListModel {
    ListModel { items, frames: frames_of(log) }
}

/// A marker opens an empty frame.
pub proof fn lemma_frames_marker(log: Seq<Option<usize>>)
    ensures
        frames_of(log.push(None)) == frames_of(log).push(Seq::empty()),
{
    assert(log.push(None).drop_last() =~= log);
}

/// A record joins the newest frame.
pub proof fn lemma_frames_record(log: Seq<Option<usize>>, c: usize)
    requires
        marker_first(log),
        log.len() > 0,
    ensures
        frames_of(log).len() > 0,
        frames_of(log.push(Some(c))) == frames_of(log).update(
            frames_of(log).len() - 1,
            frames_of(log).last().push(c),
        ),
    decreases log.len(),
{
    assert(log.push(Some(c)).drop_last() =~= log);
    if log.len() > 1 {
        let init = log.drop_last();
        assert(init[0] == log[0]);
        lemma_frames_record(init, c);
    } else {
        assert(log.drop_last() =~= Seq::empty());
        assert(log.last() == log[0]);
    }
}

/// A log that is not empty spells out at least one frame.
pub proof fn lemma_frames_nonempty(log: Seq<Option<usize>>)
    requires
        marker_first(log),
        log.len() > 0,
    ensures
        frames_of(log).len() > 0,
    decreases log.len(),
{
    if log.len() > 1 {
        let init = log.drop_last();
        assert(init[0] == log[0]);
        lemma_frames_nonempty(init);
    } else {
        assert(log.last() == log[0]);
    }
}

/// An index is listed in some frame exactly when the log holds a record of it.
pub proof fn lemma_removed_iff_logged(items: Seq<u32>, log: Seq<Option<usize>>, i: usize)
    requires
        marker_first(log),
    ensures
        model_of(items, log).is_removed(i) <==> !is_live(log, i),
    decreases log.len(),
{
    let m = model_of(items, log);
    if log.len() == 0 {
    } else {
        let init = log.drop_last();
        let m0 = model_of(items, init);
        assert(init.push(log.last()) =~= log);
        lemma_time_push(init, log.last());
        if init.len() > 0 {
            assert(init[0] == log[0]);
        }
        lemma_removed_iff_logged(items, init, i);
        match log.last() {
            None => {
                lemma_frames_marker(init);
                if m.is_removed(i) {
                    let f = choose|f: int| 0 <= f < m.frames.len() && m.frames[f].contains(i);
                    assert(m0.frames[f].contains(i));
                }
                if m0.is_removed(i) {
                    let f = choose|f: int| 0 <= f < m0.frames.len() && m0.frames[f].contains(i);
                    assert(m.frames[f].contains(i));
                }
            },
            Some(c) => {
                lemma_frames_record(init, c);
                let top = m0.frames.len() - 1;
                if m.is_removed(i) {
                    let f = choose|f: int| 0 <= f < m.frames.len() && m.frames[f].contains(i);
                    if f == top && i != c {
                        let k = choose|k: int|
                            0 <= k < m.frames[f].len() && m.frames[f][k] == i;
                        assert(m0.frames[f][k] == i);
                        assert(m0.frames[f].contains(i));
                    } else if f != top {
                        assert(m0.frames[f].contains(i));
                    }
                }
                if m0.is_removed(i) {
                    let f = choose|f: int| 0 <= f < m0.frames.len() && m0.frames[f].contains(i);
                    if f == top {
                        let k = choose|k: int|
                            0 <= k < m0.frames[f].len() && m0.frames[f][k] == i;
                        assert(m.frames[f][k] == i);
                    }
                    assert(m.frames[f].contains(i));
                }
                if i == c {
                    assert(m.frames[top][m.frames[top].len() - 1] == c);
                    assert(m.frames[top].contains(i));
                }
            },
        }
    }
}

/// The present indices of the model are the live indices of the log.
pub proof fn lemma_present_is_live(items: Seq<u32>, log: Seq<Option<usize>>)
    requires
        marker_first(log),
        items.len() <= usize::MAX,
    ensures
        model_of(items, log).present() == live_below(log, items.len()),
        forall|i: usize| model_of(items, log).is_removed(i) <==> !is_live(log, i),
{
    let m = model_of(items, log);
    let live = live_below(log, items.len());
    lemma_present_facts(m);
    lemma_live_below_facts(log, items.len());
    assert forall|i: usize| m.is_removed(i) <==> !is_live(log, i) by {
        lemma_removed_iff_logged(items, log, i);
    }
    assert forall|i: usize| m.present().contains(i) <==> live.contains(i) by {
        assert(m.present().contains(i) <==> m.is_present(i));
        if live.contains(i) {
            let j = choose|j: int| 0 <= j < live.len() && live[j] == i;
            assert(live[j] < items.len() && is_live(log, live[j]));
        }
    }
    lemma_increasing_unique(m.present(), live);
}

/// Two logs that spell out the same frames are the same log.
pub proof fn lemma_frames_injective(a: Seq<Option<usize>>, b: Seq<Option<usize>>)
    requires
        marker_first(a),
        marker_first(b),
        frames_of(a) == frames_of(b),
    ensures
        a == b,
    decreases a.len(),
{
    if a.len() == 0 {
        if b.len() > 0 {
            lemma_frames_nonempty(b);
        }
        assert(a =~= b);
    } else {
        lemma_frames_nonempty(a);
        let a0 = a.drop_last();
        let b0 = b.drop_last();
        assert(a0.push(a.last()) =~= a);
        assert(b0.push(b.last()) =~= b);
        if a0.len() > 0 {
            assert(a0[0] == a[0]);
        }
        if b0.len() > 0 {
            assert(b0[0] == b[0]);
        }
        let fa = frames_of(a0);
        let fb = frames_of(b0);
        match (a.last(), b.last()) {
            (None, None) => {
                lemma_frames_marker(a0);
                lemma_frames_marker(b0);
                assert(fa.push(Seq::empty()).drop_last() =~= fa);
                assert(fb.push(Seq::empty()).drop_last() =~= fb);
            },
            (Some(c), Some(d)) => {
                assert(a[0] is None);
                assert(b[0] is None);
                lemma_frames_record(a0, c);
                lemma_frames_record(b0, d);
                let la = fa.last().push(c);
                let lb = fb.last().push(d);
                assert(frames_of(a)[fa.len() - 1] == la);
                assert(frames_of(b)[fb.len() - 1] == lb);
                assert(la[la.len() - 1] == c);
                assert(lb[lb.len() - 1] == d);
                assert(la.drop_last() =~= fa.last());
                assert(lb.drop_last() =~= fb.last());
                assert forall|j: int| 0 <= j < fa.len() implies fa[j] == fb[j] by {
                    if j < fa.len() - 1 {
                        assert(frames_of(a)[j] == fa[j]);
                        assert(frames_of(b)[j] == fb[j]);
                    }
                }
                assert(fa =~= fb);
            },
            (None, Some(d)) => {
                assert(b[0] is None);
                lemma_frames_marker(a0);
                lemma_frames_record(b0, d);
                assert(frames_of(a)[fa.len() as int].len() == 0);
                assert(frames_of(b)[fb.len() - 1].len() > 0);
            },
            (Some(c), None) => {
                assert(a[0] is None);
                lemma_frames_marker(b0);
                lemma_frames_record(a0, c);
                assert(frames_of(b)[fb.len() as int].len() == 0);
                assert(frames_of(a)[fa.len() - 1].len() > 0);
            },
        }
        lemma_frames_injective(a0, b0);
    }
}

} // verus!
