//! The link structure of a filterable list, as plain mathematical data, and
//! the proof that splicing an index out and back in keeps it in step with
//! the undo log.

use crate::undo_log::{
    is_live, lemma_live_below_facts, lemma_live_below_marker, lemma_live_below_record,
    lemma_time_facts, lemma_time_push, live_below, removal_time,
};
use vstd::prelude::*;

verus! {

/// The links of a list over the indices `0..next.len()`.
#[verifier::ext_equal]
pub struct Links {
    pub next: Seq<Option<usize>>,
    pub prev: Seq<Option<usize>>,
    pub head: Option<usize>,
    pub tail: Option<usize>,
    pub len: nat,
}

/// `nx` is the nearest index above `i` that had not yet left the list when
/// `i` left it (or, while `i` is live, the nearest live index above `i`).
pub open spec fn next_fits(log: Seq<Option<usize>>, n: nat, i: usize, nx: Option<usize>) -> bool {
    let t = removal_time(log, i);
    match nx {
        Some(q) => i < q < n && removal_time(log, q) >= t && forall|m: usize|
            i < m < q ==> #[trigger] removal_time(log, m) < t,
        None => forall|m: usize| i < m < n ==> #[trigger] removal_time(log, m) < t,
    }
}

/// `pv` is the nearest index below `i` that had not yet left the list when
/// `i` left it (or, while `i` is live, the nearest live index below `i`).
pub open spec fn prev_fits(log: Seq<Option<usize>>, i: usize, pv: Option<usize>) -> bool {
    let t = removal_time(log, i);
    match pv {
        Some(p) => p < i && removal_time(log, p) >= t && forall|m: usize|
            p < m < i ==> #[trigger] removal_time(log, m) < t,
        None => forall|m: usize| m < i ==> #[trigger] removal_time(log, m) < t,
    }
}

/// `head` is the lowest live index, if there is one.
pub open spec fn head_fits(log: Seq<Option<usize>>, n: nat, head: Option<usize>) -> bool {
    match head {
        Some(h) => h < n && is_live(log, h) && forall|m: usize|
            m < h ==> #[trigger] removal_time(log, m) < log.len(),
        None => forall|m: usize| m < n ==> #[trigger] removal_time(log, m) < log.len(),
    }
}

/// `tail` is the highest live index, if there is one.
pub open spec fn tail_fits(log: Seq<Option<usize>>, n: nat, tail: Option<usize>) -> bool {
    match tail {
        Some(h) => h < n && is_live(log, h) && forall|m: usize|
            h < m < n ==> #[trigger] removal_time(log, m) < log.len(),
        None => forall|m: usize| m < n ==> #[trigger] removal_time(log, m) < log.len(),
    }
}

impl Links {
    /// The number of indices that the links range over.
    pub open spec fn size(self) -> nat {
        self.next.len()
    }

    /// The links are those that the history `log` leaves behind: live indices
    /// are chained in increasing order, and each index that left keeps the
    /// neighbours it had at that moment.
    pub open spec fn fits(self, log: Seq<Option<usize>>) -> bool {
        let n = self.size();
        &&& n <= usize::MAX
        &&& self.prev.len() == n
        &&& forall|i: usize| i < n ==> next_fits(log, n, i, #[trigger] self.next[i as int])
        &&& forall|i: usize| i < n ==> prev_fits(log, i, #[trigger] self.prev[i as int])
        &&& head_fits(log, n, self.head)
        &&& tail_fits(log, n, self.tail)
        &&& self.len == live_below(log, n).len()
    }

    /// The links of a list in which every index is present.
    pub open spec fn fresh(n: nat) -> Links {
        Links {
            next: Seq::new(
                n,
                |i: int|
                    if i + 1 < n {
                        Some((i + 1) as usize)
                    } else {
                        None
                    },
            ),
            prev: Seq::new(
                n,
                |i: int|
                    if i > 0 {
                        Some((i - 1) as usize)
                    } else {
                        None
                    },
            ),
            head: if n > 0 {
                Some(0usize)
            } else {
                None
            },
            tail: if n > 0 {
                Some((n - 1) as usize)
            } else {
                None
            },
            len: n,
        }
    }

    /// The links after index `c` has been spliced out.
    pub open spec fn unlink(self, c: usize) -> Links {
        let p = self.prev[c as int];
        let q = self.next[c as int];
        Links {
            next: match p {
                Some(pi) => self.next.update(pi as int, q),
                None => self.next,
            },
            prev: match q {
                Some(qi) => self.prev.update(qi as int, p),
                None => self.prev,
            },
            head: match p {
                Some(_) => self.head,
                None => q,
            },
            tail: match q {
                Some(_) => self.tail,
                None => p,
            },
            len: (self.len - 1) as nat,
        }
    }

    /// The links after index `c` has been spliced back in between the
    /// neighbours it remembers.
    pub open spec fn relink(self, c: usize) -> Links {
        let p = self.prev[c as int];
        let q = self.next[c as int];
        Links {
            next: match p {
                Some(pi) => self.next.update(pi as int, Some(c)),
                None => self.next,
            },
            prev: match q {
                Some(qi) => self.prev.update(qi as int, Some(c)),
                None => self.prev,
            },
            head: match p {
                Some(_) => self.head,
                None => Some(c),
            },
            tail: match q {
                Some(_) => self.tail,
                None => Some(c),
            },
            len: self.len + 1,
        }
    }
}

/// With an empty log every index is live.
pub proof fn lemma_live_below_all(k: nat)
    requires
        k <= usize::MAX + 1,
    ensures
        live_below(Seq::empty(), k).len() == k,
    decreases k,
{
    if k > 0 {
        lemma_live_below_all((k - 1) as nat);
    }
}

/// The links of a new list fit the empty log.
pub proof fn lemma_fresh_fits(n: nat)
    requires
        n <= usize::MAX,
    ensures
        Links::fresh(n).fits(Seq::empty()),
{
    lemma_live_below_all(n);
}

/// Opening a frame changes no link.
pub proof fn lemma_marker_push(links: Links, log: Seq<Option<usize>>)
    requires
        links.fits(log),
    ensures
        links.fits(log.push(None)),
{
    let n = links.size();
    let after = log.push(None);
    lemma_time_push(log, None);
    lemma_live_below_marker(log, n);
    assert forall|i: usize| i < n implies next_fits(after, n, i, #[trigger] links.next[i as int]) by {
        assert(next_fits(log, n, i, links.next[i as int]));
    }
    assert forall|i: usize| i < n implies prev_fits(after, i, #[trigger] links.prev[i as int]) by {
        assert(prev_fits(log, i, links.prev[i as int]));
    }
}

/// Dropping the marker of an empty newest frame changes no link.
pub proof fn lemma_marker_pop(links: Links, log: Seq<Option<usize>>)
    requires
        links.fits(log.push(None)),
    ensures
        links.fits(log),
{
    let n = links.size();
    let before = log.push(None);
    lemma_time_push(log, None);
    lemma_live_below_marker(log, n);
    assert forall|i: usize| true implies 0 <= #[trigger] removal_time(log, i) <= log.len() by {
        lemma_time_facts(log, i);
    }
    assert forall|i: usize| i < n implies next_fits(log, n, i, #[trigger] links.next[i as int]) by {
        assert(next_fits(before, n, i, links.next[i as int]));
    }
    assert forall|i: usize| i < n implies prev_fits(log, i, #[trigger] links.prev[i as int]) by {
        assert(prev_fits(before, i, links.prev[i as int]));
    }
}

/// Splicing a live index out leaves the links that the log with one more
/// record describes.
pub proof fn lemma_unlink(links: Links, log: Seq<Option<usize>>, c: usize)
    requires
        links.fits(log),
        c < links.size(),
        is_live(log, c),
    ensures
        links.len > 0,
        links.unlink(c).fits(log.push(Some(c))),
{
    let n = links.size();
    let after = log.push(Some(c));
    let out = links.unlink(c);
    let p = links.prev[c as int];
    let q = links.next[c as int];
    lemma_time_push(log, Some(c));
    lemma_live_below_record(log, c, n);
    assert(next_fits(log, n, c, q));
    assert(prev_fits(log, c, p));
    assert forall|i: usize| i < n implies next_fits(after, n, i, #[trigger] out.next[i as int]) by {
        assert(next_fits(log, n, i, links.next[i as int]));
    }
    assert forall|i: usize| i < n implies prev_fits(after, i, #[trigger] out.prev[i as int]) by {
        assert(prev_fits(log, i, links.prev[i as int]));
    }
}

/// Splicing the newest recorded index back in leaves the links that the log
/// without that record describes.
pub proof fn lemma_relink(links: Links, log: Seq<Option<usize>>, c: usize)
    requires
        links.fits(log.push(Some(c))),
        c < links.size(),
        is_live(log, c),
    ensures
        links.len < links.size(),
        links.relink(c).fits(log),
{
    let n = links.size();
    let before = log.push(Some(c));
    let back = links.relink(c);
    let p = links.prev[c as int];
    let q = links.next[c as int];
    lemma_time_push(log, Some(c));
    lemma_live_below_record(log, c, n);
    lemma_live_below_facts(log, n);
    assert(next_fits(before, n, c, q));
    assert(prev_fits(before, c, p));
    assert forall|i: usize| i < n implies next_fits(log, n, i, #[trigger] back.next[i as int]) by {
        assert(next_fits(before, n, i, links.next[i as int]));
    }
    assert forall|i: usize| i < n implies prev_fits(log, i, #[trigger] back.prev[i as int]) by {
        assert(prev_fits(before, i, links.prev[i as int]));
    }
}

/// A log leaves exactly one link structure behind.
pub proof fn lemma_fits_unique(a: Links, b: Links, log: Seq<Option<usize>>)
    requires
        a.fits(log),
        b.fits(log),
        a.size() == b.size(),
    ensures
        a == b,
{
    let n = a.size();
    assert forall|i: int| 0 <= i < n implies a.next[i] == b.next[i] by {
        let u = i as usize;
        assert(next_fits(log, n, u, a.next[u as int]));
        assert(next_fits(log, n, u, b.next[u as int]));
    }
    assert forall|i: int| 0 <= i < n implies a.prev[i] == b.prev[i] by {
        let u = i as usize;
        assert(prev_fits(log, u, a.prev[u as int]));
        assert(prev_fits(log, u, b.prev[u as int]));
    }
    assert(a.next =~= b.next);
    assert(a.prev =~= b.prev);
}

/// The head is the first live index.
pub proof fn lemma_head_is_first(links: Links, log: Seq<Option<usize>>)
    requires
        links.fits(log),
    ensures
        links.head == if live_below(log, links.size()).len() > 0 {
            Some(live_below(log, links.size())[0])
        } else {
            None
        },
{
    let n = links.size();
    let live = live_below(log, n);
    lemma_live_below_facts(log, n);
    if live.len() > 0 {
        let first = live[0];
        match links.head {
            Some(h) => {
                assert(live.contains(h));
                let j = choose|j: int| 0 <= j < live.len() && live[j] == h;
                if j > 0 {
                    assert(live[0] < live[j]);
                }
            },
            None => {},
        }
    } else {
        match links.head {
            Some(h) => {
                assert(live.contains(h));
            },
            None => {},
        }
    }
}

/// The `next` link of a live index leads to the live index that follows it.
pub proof fn lemma_next_is_successor(links: Links, log: Seq<Option<usize>>, k: int)
    requires
        links.fits(log),
        0 <= k < live_below(log, links.size()).len(),
    ensures
        links.next[live_below(log, links.size())[k] as int] == if k + 1 < live_below(
            log,
            links.size(),
        ).len() {
            Some(live_below(log, links.size())[k + 1])
        } else {
            None
        },
{
    let n = links.size();
    let live = live_below(log, n);
    lemma_live_below_facts(log, n);
    let i = live[k];
    assert(next_fits(log, n, i, links.next[i as int]));
    match links.next[i as int] {
        Some(q) => {
            lemma_time_facts(log, q);
            assert(is_live(log, i));
            assert(is_live(log, q));
            assert(live.contains(q));
            let j = choose|j: int| 0 <= j < live.len() && live[j] == q;
            if j <= k {
                if j < k {
                    assert(live[j] < live[k]);
                }
            } else if j > k + 1 {
                assert(live[k] < live[k + 1]);
                assert(live[k + 1] < live[j]);
            }
        },
        None => {
            if k + 1 < live.len() {
                assert(live[k] < live[k + 1]);
            }
        },
    }
}

} // verus!
