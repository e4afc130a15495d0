//! Queues of parathread selections: those for the coming blocks, and those to be retried.

use crate::ids::{ascending, ids_of};
use crate::types::{ParaId, Selection};
use vstd::prelude::*;

verus! {

/// What a list of queues holds.
pub open spec fn contents(v: Seq<Vec<Selection>>) -> Seq<Seq<Selection>> {
    v.map_values(|q: Vec<Selection>| q@)
}

/// The first `n` queues, filled up with empty ones.
pub open spec fn resized(qs: Seq<Seq<Selection>>, n: nat) -> Seq<Seq<Selection>> {
    Seq::new(
        n,
        |i: int|
            if i < qs.len() {
                qs[i]
            } else {
                Seq::empty()
            },
    )
}

/// The retry queues once `sched`, which was retried `retries` times so far, is to be retried,
/// which happens at most `max` times.
pub open spec fn retried_later(
    qs: Seq<Seq<Selection>>,
    sched: Selection,
    retries: u32,
    max: u32,
) -> Seq<Seq<Selection>> {
    if retries < max {
        let r = resized(qs, max as nat);
        r.update(retries as int, r[retries as int].push(sched))
    } else {
        qs
    }
}

/// `i` is the first queue in which something waits.
pub open spec fn is_first_waiting(qs: Seq<Seq<Selection>>, i: int) -> bool {
    &&& 0 <= i < qs.len()
    &&& qs[i].len() > 0
    &&& forall|j: int| 0 <= j < i ==> (#[trigger] qs[j]).len() == 0
}

/// Something waits in one of the queues.
pub open spec fn any_waiting(qs: Seq<Seq<Selection>>) -> bool {
    exists|i: int| is_first_waiting(qs, i)
}

/// The first queue in which something waits, where there is one.
pub open spec fn first_waiting(qs: Seq<Seq<Selection>>) -> int {
    choose|i: int| is_first_waiting(qs, i)
}

/// What is to be retried next: the head of the first queue in which something waits, with the
/// number of that queue, which tells how often it was retried.
pub open spec fn next_retry(qs: Seq<Seq<Selection>>) -> Option<(Selection, u32)> {
    if any_waiting(qs) {
        Some((qs[first_waiting(qs)][0], first_waiting(qs) as u32))
    } else {
        None
    }
}

/// The retry queues without what is to be retried next.
pub open spec fn next_retry_taken(qs: Seq<Seq<Selection>>) -> Seq<Seq<Selection>> {
    if any_waiting(qs) {
        qs.update(first_waiting(qs), qs[first_waiting(qs)].drop_first())
    } else {
        qs
    }
}

/// What the next block takes out of the selected threads.
pub open spec fn next_up(qs: Seq<Seq<Selection>>, size: nat) -> Seq<Selection> {
    if qs.len() >= size {
        qs[0]
    } else {
        Seq::empty()
    }
}

/// The selected threads once the next block has taken its set out.
pub open spec fn moved_up(qs: Seq<Seq<Selection>>, size: nat) -> Seq<Seq<Selection>> {
    let rest = if qs.len() >= size {
        qs.drop_first()
    } else {
        qs
    };
    if rest.len() < size {
        resized(rest, size)
    } else {
        rest
    }
}

/// What is left of a queue once the paras that match are removed.
pub open spec fn kept(q: Seq<Selection>, matching: spec_fn(ParaId) -> bool) -> Seq<Selection> {
    q.filter(|e: Selection| !matching(e.0))
}

/// What is left of all queues once the paras that match are removed.
pub open spec fn all_kept(qs: Seq<Seq<Selection>>, matching: spec_fn(ParaId) -> bool) -> Seq<
    Seq<Selection>,
> {
    qs.map_values(|q: Seq<Selection>| kept(q, matching))
}

/// Each queue is ascending by identifier.
pub open spec fn all_ascending(qs: Seq<Seq<Selection>>) -> bool {
    forall|i: int| 0 <= i < qs.len() ==> ascending(ids_of(#[trigger] qs[i]))
}

/// `id` waits in one of the queues.
pub open spec fn queued(qs: Seq<Seq<Selection>>, id: ParaId) -> bool {
    exists|i: int| 0 <= i < qs.len() && ids_of(#[trigger] qs[i]).contains(id)
}

/// Brings the queues to a number of `n`.
fn resize(qs: &mut Vec<Vec<Selection>>, n: usize)
    ensures
        contents(final(qs)@) == resized(contents(old(qs)@), n as nat),
{
    let ghost start = qs@;
    if qs.len() > n {
        qs.truncate(n);
    }
    while qs.len() < n
        invariant
            qs@.len() <= n,
            start.len() <= n ==> start.len() <= qs@.len(),
            start.len() > n ==> qs@.len() == n,
            forall|i: int| 0 <= i < start.len() && i < qs@.len() ==> qs@[i] == #[trigger] start[i],
            forall|i: int|
                start.len() <= i < qs@.len() ==> (#[trigger] qs@[i])@ == Seq::<Selection>::empty(),
        decreases n - qs@.len(),
    {
        qs.push(Vec::new());
    }
    assert(contents(qs@) =~= resized(contents(start), n as nat)) by {
        assert forall|i: int| 0 <= i < n implies contents(qs@)[i] == #[trigger] resized(
            contents(start),
            n as nat,
        )[i] by {
            if i < start.len() {
                assert(qs@[i] == start[i]);
            }
        }
    }
}

/// Puts `sched` among those to be retried, unless it was retried `max` times already.
pub fn retry_later(qs: &mut Vec<Vec<Selection>>, sched: Selection, retries: u32, max: u32)
    ensures
        contents(final(qs)@) == retried_later(contents(old(qs)@), sched, retries, max),
{
    if retries < max {
        let ghost start = contents(qs@);
        resize(qs, max as usize);
        let ghost mid = contents(qs@);
        let at: usize = retries as usize;
        assert(mid.len() == qs@.len());
        qs[at].push(sched);
        assert(contents(qs@) =~= mid.update(at as int, mid[at as int].push(sched)));
    }
}

/// Takes out what is to be retried next.
pub fn take_next_retry(qs: &mut Vec<Vec<Selection>>) -> (r: Option<(Selection, u32)>)
    requires
        old(qs)@.len() <= u32::MAX,
    ensures
        r == next_retry(contents(old(qs)@)),
        contents(final(qs)@) == next_retry_taken(contents(old(qs)@)),
{
    let ghost start = contents(qs@);
    let n: usize = qs.len();
    let mut i: usize = 0;
    while i < n
        invariant
            start == contents(qs@),
            start == contents(old(qs)@),
            n == qs@.len() == start.len(),
            n <= u32::MAX,
            i <= n,
            forall|j: int| 0 <= j < i ==> (#[trigger] start[j]).len() == 0,
        decreases n - i,
    {
        assert(start[i as int] == qs@[i as int]@);
        if qs[i].len() > 0 {
            proof {
                assert(is_first_waiting(start, i as int));
                let k = first_waiting(start);
                assert(is_first_waiting(start, k));
                if k < i {
                    assert(start[k].len() == 0);
                } else if i < k {
                    assert(start[i as int].len() == 0);
                }
            }
            let head: Selection = qs[i].remove(0);
            assert(contents(qs@) =~= start.update(i as int, start[i as int].drop_first())) by {
                assert(start[i as int].drop_first() =~= start[i as int].remove(0));
            }
            return Some((head, i as u32));
        }
        i = i + 1;
    }
    assert(!any_waiting(start)) by {
        assert forall|k: int| !is_first_waiting(start, k) by {
            if 0 <= k < n {
                assert(start[k].len() == 0);
            }
        }
    }
    None
}

/// Takes out the selections for the next block, and keeps `size` queues at least.
pub fn take_next_up(qs: &mut Vec<Vec<Selection>>, size: usize) -> (r: Vec<Selection>)
    requires
        size > 0 || old(qs)@.len() > 0,
    ensures
        r@ == next_up(contents(old(qs)@), size as nat),
        contents(final(qs)@) == moved_up(contents(old(qs)@), size as nat),
{
    let ghost start = contents(qs@);
    let r: Vec<Selection> = if qs.len() >= size {
        qs.remove(0)
    } else {
        Vec::new()
    };
    let ghost rest = contents(qs@);
    assert(rest =~= if start.len() >= size {
        start.drop_first()
    } else {
        start
    });
    assert(rest.len() == qs@.len());
    if qs.len() < size {
        resize(qs, size);
    }
    r
}

/// What is left of `q` once the paras that match are removed.
fn retain<F: Fn(ParaId) -> bool>(
    q: &Vec<Selection>,
    m: &F,
    Ghost(matching): Ghost<spec_fn(ParaId) -> bool>,
) -> (r: Vec<Selection>)
    requires
        forall|id: ParaId| call_requires(*m, (id,)),
        forall|id: ParaId, b: bool| call_ensures(*m, (id,), b) ==> b == matching(id),
    ensures
        r@ == kept(q@, matching),
{
    let ghost keep = |e: Selection| !matching(e.0);
    let mut r: Vec<Selection> = Vec::new();
    let n: usize = q.len();
    assert(q@.take(0).filter(keep) =~= Seq::empty()) by {
        reveal(Seq::filter);
    }
    for i in 0..n
        invariant
            n == q@.len(),
            keep == (|e: Selection| !matching(e.0)),
            forall|id: ParaId| call_requires(*m, (id,)),
            forall|id: ParaId, b: bool| call_ensures(*m, (id,), b) ==> b == matching(id),
            r@ == q@.take(i as int).filter(keep),
    {
        let e: Selection = q[i];
        proof {
            reveal(Seq::filter);
            assert(q@.take(i + 1).drop_last() =~= q@.take(i as int));
        }
        if !m(e.0) {
            r.push(e);
        }
    }
    assert(q@.take(n as int) =~= q@);
    r
}

/// Removes the paras that match from all queues.
pub(crate) fn retain_all<F: Fn(ParaId) -> bool>(
    qs: &mut Vec<Vec<Selection>>,
    m: &F,
    Ghost(matching): Ghost<spec_fn(ParaId) -> bool>,
)
    requires
        forall|id: ParaId| call_requires(*m, (id,)),
        forall|id: ParaId, b: bool| call_ensures(*m, (id,), b) ==> b == matching(id),
    ensures
        contents(final(qs)@) == all_kept(contents(old(qs)@), matching),
{
    let ghost start = qs@;
    let n: usize = qs.len();
    for i in 0..n
        invariant
            n == qs@.len() == start.len(),
            forall|id: ParaId| call_requires(*m, (id,)),
            forall|id: ParaId, b: bool| call_ensures(*m, (id,), b) ==> b == matching(id),
            forall|j: int| 0 <= j < i ==> (#[trigger] qs@[j])@ == kept(start[j]@, matching),
            forall|j: int| i <= j < n ==> #[trigger] qs@[j] == start[j],
    {
        let q: Vec<Selection> = retain(&qs[i], m, Ghost(matching));
        qs[i] = q;
    }
    assert(contents(qs@) =~= all_kept(contents(start), matching));
}

} // verus!
