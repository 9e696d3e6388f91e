//! What a sweep comes to, over any number of steps, in a process whose
//! descriptors behave as the kernel's calls are documented to make them.

use crate::closefds::close::{succeeded, to_u32_spec, Mode, Stage, SweepView};
use crate::closefds::KeepFdsView;
use crate::iterfds::fditer::{lemma_step, FdIterView};
use crate::iterfds::kernel::{
    honest, lemma_enumerate_exact_on_candid_kernel, lemma_fresh_tracks, lemma_honest_step,
    lemma_tracks_grow, tracks,
};
use crate::iterfds::laws::{
    lemma_enumerate_exact, lemma_handle, lemma_release_handle, lemma_requests,
    lemma_step_ascending, reads_only, seen, Walk,
};
use crate::iterfds::FdIterBuilderView;
use crate::sys::{Poll, Reply, Request, Sys};
use crate::util::{
    count_below, gaps_from, in_gaps, is_sorted, lemma_gaps_cover, lemma_gaps_shape,
    lemma_simplify_preserves, lemma_walk_sorted, set_cloexec_spec, simplify_spec,
};
use vstd::prelude::*;

verus! {

/// The number `x` is on the keep-list `k`.
pub open spec fn kept(k: Seq<i32>, x: int) -> bool {
    exists|i: int| 0 <= i < k.len() && k[i] == x
}

/// The numbers from `fd` upward.
pub open spec fn from(fd: int) -> Set<int> {
    Set::new(|x: int| x >= fd)
}

/// The numbers from `low` to `high`.
pub open spec fn between(low: int, high: int) -> Set<int> {
    Set::new(|x: int| low <= x <= high)
}

/// The descriptors of a process while a sweep runs over them.
pub struct World {
    /// The descriptors that were open when the sweep started.
    pub open: Set<int>,
    /// The numbers that are settled: a call has closed or marked them, or has
    /// found that they are no open descriptor or are marked already.
    pub settled: Set<int>,
    /// The lowest number that the enumeration has not passed.
    pub frontier: int,
}

/// The reply to a question for flags is answered by writing flags back.
pub open spec fn writes_flags(reply: Reply) -> bool {
    reply matches Reply::Value(flags) && i32::MIN <= flags <= i32::MAX && set_cloexec_spec(
        flags as i32,
    ) is Some
}

/// What is settled once the call `last` has been made and has been answered
/// with `reply`. Closing a descriptor and writing its flags settle it, and so
/// does a look at its flags that finds nothing to write: flags that cannot be
/// read belong to no open descriptor, and flags that hold the mark need none.
/// A call on a range settles the range where it succeeds and nothing where it
/// fails.
pub open spec fn settle(stage: Stage, settled: Set<int>, last: Poll<()>, reply: Reply) -> Set<int> {
    match last {
        Poll::Pending(Request::Close { fd }) => settled.insert(fd as int),
        Poll::Pending(Request::SetFlags { fd, flags }) => settled.insert(fd as int),
        Poll::Pending(Request::CloseFrom { fd }) => settled.union(from(fd as int)),
        Poll::Pending(Request::CloseRange { low, high }) => if succeeded(reply) {
            settled.union(between(low as int, high as int))
        } else {
            settled
        },
        Poll::Pending(Request::CloexecRange { low, high }) => if succeeded(reply) {
            settled.union(between(low as int, high as int))
        } else {
            settled
        },
        Poll::Pending(Request::GetFlags { fd }) => if stage is AwaitFlags && !writes_flags(reply) {
            settled.insert(fd as int)
        } else {
            settled
        },
        _ => settled,
    }
}

/// A sweep under way: its state, the descriptors of the process, and what its
/// last step came to.
pub struct Run {
    pub s: SweepView,
    pub w: World,
    pub last: Poll<()>,
}

impl Run {
    /// A sweep about to take its first step in a process with the descriptors
    /// `open`, of which `settled` need no work.
    pub open spec fn start(s: SweepView, open: Set<int>, settled: Set<int>) -> Run {
        Run {
            s,
            w: World { open, settled, frontier: s.minfd as int },
            last: Poll::Pending(Request::Proceed),
        }
    }

    /// The enumeration tells the truth at the step that `reply` answers: it
    /// hands out no number below those it has passed, the numbers it passes
    /// over are no open descriptors in need of work, and neither are the
    /// numbers beyond its end.
    pub open spec fn faithful(self, reply: Reply) -> bool {
        self.s.stage is Enumerate ==> match self.s.iter.next(reply).1 {
            Poll::Ready(Some(fd)) => self.w.frontier <= fd && forall|x: int|
                self.w.frontier <= x < fd && self.w.open.contains(x) ==> self.w.settled.contains(x),
            Poll::Ready(None) => forall|x: int|
                self.w.frontier <= x && self.w.open.contains(x) ==> self.w.settled.contains(x),
            Poll::Pending(_) => true,
        }
    }

    /// The step that `reply` answers: the call asked for last takes effect,
    /// the sweep takes its step, and the enumeration passes what it hands out.
    pub open spec fn step(self, reply: Reply) -> Run {
        Run {
            s: self.s.resume(reply).0,
            w: World {
                open: self.w.open,
                settled: settle(self.s.stage, self.w.settled, self.last, reply),
                frontier: if self.s.stage is Enumerate {
                    match self.s.iter.next(reply).1 {
                        Poll::Ready(Some(fd)) => fd + 1,
                        _ => self.w.frontier,
                    }
                } else {
                    self.w.frontier
                },
            },
            last: self.s.resume(reply).1,
        }
    }

    /// The steps that `replies` answer, one after the other.
    pub open spec fn run(self, replies: Seq<Reply>) -> Run
        decreases replies.len(),
    {
        if replies.len() == 0 {
            self
        } else {
            self.run(replies.drop_last()).step(replies.last())
        }
    }

    /// The enumeration tells the truth at every step of the run.
    pub open spec fn faithful_run(self, replies: Seq<Reply>) -> bool {
        forall|i: int|
            0 <= i < replies.len() ==> (#[trigger] self.run(replies.take(i))).faithful(replies[i])
    }
}

/// The number `x` is the sweep's to work on: it is at or above the threshold
/// `minfd` and not on the keep-list `k`.
pub open spec fn due(minfd: i32, k: Seq<i32>, x: int) -> bool {
    minfd <= x && !kept(k, x)
}

/// The call asked for last touches only what is the sweep's to work on.
pub open spec fn last_safe(r: Run, k: Seq<i32>) -> bool {
    match r.last {
        Poll::Pending(Request::Close { fd }) => due(r.s.minfd, k, fd as int),
        Poll::Pending(Request::SetFlags { fd, flags }) => due(r.s.minfd, k, fd as int),
        Poll::Pending(Request::CloseFrom { fd }) => forall|x: int| x >= fd ==> due(r.s.minfd, k, x),
        Poll::Pending(Request::CloseRange { low, high }) => forall|x: int|
            low <= x <= high ==> due(r.s.minfd, k, x),
        Poll::Pending(Request::CloexecRange { low, high }) => forall|x: int|
            low <= x <= high ==> due(r.s.minfd, k, x),
        Poll::Pending(Request::GetFlags { fd }) => r.s.stage is AwaitFlags ==> due(
            r.s.minfd,
            k,
            fd as int,
        ),
        _ => true,
    }
}

/// The single descriptor that the call asked for last closes or marks.
pub open spec fn last_single(last: Poll<()>) -> Option<int> {
    match last {
        Poll::Pending(Request::Close { fd }) => Some(fd as int),
        Poll::Pending(Request::SetFlags { fd, flags }) => Some(fd as int),
        _ => None,
    }
}

/// The range that the call asked for last works on.
pub open spec fn last_range(last: Poll<()>) -> Option<(int, int)> {
    match last {
        Poll::Pending(Request::CloseRange { low, high }) => Some((low as int, high as int)),
        Poll::Pending(Request::CloexecRange { low, high }) => Some((low as int, high as int)),
        _ => None,
    }
}

/// The number `x`, if it still needs work, is covered by what the sweep has
/// asked for or is yet to do.
pub open spec fn owed(r: Run, x: int) -> bool {
    match r.s.stage {
        Stage::Start => true,
        Stage::AwaitProbe => true,
        Stage::AwaitAll => true,
        Stage::AwaitGap => in_gaps(r.s.gaps, x) || (last_range(r.last) matches Some((low, high))
            && low <= x <= high),
        Stage::Enumerate => x >= r.w.frontier,
        Stage::AwaitApplied => x >= r.w.frontier || last_single(r.last) == Some(x),
        Stage::AwaitFlags { fd } => x >= r.w.frontier || x == fd,
        Stage::AwaitRest { fd } => x >= fd,
        Stage::AwaitReleaseThenCloseFrom { fd } => x >= fd,
        Stage::AwaitLast => r.last matches Poll::Pending(Request::CloseFrom { fd }) && x >= fd,
        Stage::Done => false,
    }
}

/// What holds at each stage of what the sweep has asked for last.
pub open spec fn stage_ok(r: Run, k: Seq<i32>) -> bool {
    match r.s.stage {
        Stage::Start => r.s.gaps == gaps_from(r.s.minfd as int, r.s.keep) && r.w.frontier
            == r.s.minfd && !r.s.rest && r.last == Poll::<()>::Pending(Request::Proceed),
        Stage::AwaitProbe => r.s.gaps == gaps_from(r.s.minfd as int, r.s.keep) && r.w.frontier
            == r.s.minfd && !r.s.rest && r.s.sorted && r.last == Poll::<()>::Pending(
            Request::OsRelDate,
        ),
        Stage::AwaitAll => r.w.frontier == r.s.minfd && !r.s.rest && r.s.max_keep < r.s.minfd
            && last_range(r.last) == Some((r.s.minfd as int, u32::MAX as int)),
        Stage::AwaitGap => r.w.frontier == r.s.minfd && !r.s.rest && (forall|x: int|
            in_gaps(r.s.gaps, x) ==> due(r.s.minfd, k, x)) && (forall|i: int|
            0 <= i < r.s.gaps.len() ==> 0 <= (#[trigger] r.s.gaps[i]).0 <= r.s.gaps[i].1
                <= i32::MAX) && last_range(r.last) is Some,
        Stage::Enumerate => r.last matches Poll::Pending(req) && (req is Proceed || reads_only(
            req,
        )),
        Stage::AwaitApplied => last_single(r.last) is Some,
        Stage::AwaitFlags { fd } => r.last == Poll::<()>::Pending(Request::GetFlags { fd }),
        Stage::AwaitRest { fd } => !r.s.rest && fd > r.s.max_keep && 0 <= fd && r.w.frontier == fd
            + 1 && last_range(r.last) == Some((fd as int, u32::MAX as int)),
        Stage::AwaitReleaseThenCloseFrom { fd } => fd >= r.s.minfd && fd > r.s.max_keep
            && r.last matches Poll::Pending(Request::CloseListing { dirfd }),
        Stage::AwaitLast => r.last matches Poll::Pending(req) && (req is CloseFrom
            || req is CloseListing),
        Stage::Done => r.last is Ready,
    }
}

/// What holds of a sweep whatever it has asked for last: see [`inv`].
pub open spec fn holds(s: SweepView, w: World, k: Seq<i32>, settled0: Set<int>) -> bool {
    &&& 0 <= s.minfd <= w.frontier
    &&& forall|x: int| kept(k, x) ==> x <= s.max_keep
    &&& (s.rest ==> w.frontier > s.max_keep)
    &&& forall|x: int| w.open.contains(x) ==> x <= i32::MAX
    &&& (s.sorted ==> is_sorted(s.keep))
    &&& forall|x: int| x >= w.frontier ==> (kept(s.keep, x) <==> kept(k, x))
    &&& forall|x: int| w.settled.contains(x) && !settled0.contains(x) ==> due(s.minfd, k, x)
    &&& forall|x: int| settled0.contains(x) ==> w.settled.contains(x)
}

/// The open descriptor `x` is the sweep's to work on and has not been
/// settled.
pub open spec fn pending_work(minfd: i32, w: World, k: Seq<i32>, x: int) -> bool {
    w.open.contains(x) && due(minfd, k, x) && !w.settled.contains(x)
}

/// What holds of a sweep at every step, for the keep-list `k` it was started
/// with in a process where `settled0` needed no work: nothing has been
/// settled that is not the sweep's to work on, the call asked for last
/// touches only that, the walk over the keep-list still answers for every
/// number yet to come, and every open descriptor that still needs work is
/// covered by what the sweep has asked for or is yet to do.
pub open spec fn inv(r: Run, k: Seq<i32>, settled0: Set<int>) -> bool {
    &&& holds(r.s, r.w, k, settled0)
    &&& last_safe(r, k)
    &&& stage_ok(r, k)
    &&& forall|x: int| pending_work(r.s.minfd, r.w, k, x) ==> owed(r, x)
}

proof fn lemma_done(m: SweepView, w: World, k: Seq<i32>, settled0: Set<int>)
    requires
        holds(m, w, k, settled0),
        forall|x: int| !pending_work(m.minfd, w, k, x),
    ensures
        inv(Run { s: m.done().0, w, last: m.done().1 }, k, settled0),
{
}

proof fn lemma_proceed(m: SweepView, w: World, k: Seq<i32>, settled0: Set<int>)
    requires
        holds(m, w, k, settled0),
        forall|x: int| pending_work(m.minfd, w, k, x) ==> x >= w.frontier,
    ensures
        inv(Run { s: m.proceed().0, w, last: m.proceed().1 }, k, settled0),
{
}

proof fn lemma_single(m: SweepView, w: World, fd: i32, k: Seq<i32>, settled0: Set<int>)
    requires
        holds(m, w, k, settled0),
        due(m.minfd, k, fd as int),
        forall|x: int| pending_work(m.minfd, w, k, x) ==> x >= w.frontier || x == fd,
    ensures
        inv(Run { s: m.single(fd).0, w, last: m.single(fd).1 }, k, settled0),
{
}

proof fn lemma_next_gap(m: SweepView, w: World, k: Seq<i32>, settled0: Set<int>)
    requires
        holds(m, w, k, settled0),
        w.frontier == m.minfd,
        !m.rest,
        forall|x: int| in_gaps(m.gaps, x) ==> due(m.minfd, k, x),
        forall|i: int|
            0 <= i < m.gaps.len() ==> 0 <= (#[trigger] m.gaps[i]).0 <= m.gaps[i].1 <= i32::MAX,
        forall|x: int| pending_work(m.minfd, w, k, x) ==> in_gaps(m.gaps, x),
    ensures
        inv(Run { s: m.next_gap().0, w, last: m.next_gap().1 }, k, settled0),
{
    let r = Run { s: m.next_gap().0, w, last: m.next_gap().1 };
    if m.gaps.len() == 0 {
        assert forall|x: int| !pending_work(m.minfd, w, k, x) by {
            if pending_work(m.minfd, w, k, x) {
                assert(in_gaps(m.gaps, x));
            }
        }
        lemma_done(m, w, k, settled0);
    } else {
        let g = m.gaps[0];
        let rest = m.gaps.skip(1);
        assert(to_u32_spec(g.0 as i32) == g.0);
        assert(to_u32_spec(g.1 as i32) == g.1);
        assert(last_range(r.last) == Some((g.0, g.1)));
        assert forall|x: int| in_gaps(rest, x) implies in_gaps(m.gaps, x) by {
            let i = choose|i: int| 0 <= i < rest.len() && (#[trigger] rest[i]).0 <= x <= rest[i].1;
            assert(m.gaps[i + 1] == rest[i]);
        }
        assert forall|x: int| g.0 <= x <= g.1 implies due(m.minfd, k, x) by {
            assert(m.gaps[0].0 <= x <= m.gaps[0].1);
            assert(in_gaps(m.gaps, x));
        }
        assert forall|i: int| 0 <= i < rest.len() implies 0 <= (#[trigger] rest[i]).0 <= rest[i].1
            <= i32::MAX by {
            assert(m.gaps[i + 1] == rest[i]);
        }
        assert forall|x: int| pending_work(r.s.minfd, r.w, k, x) implies owed(r, x) by {
            assert(pending_work(m.minfd, w, k, x));
            assert(in_gaps(m.gaps, x));
            let i = choose|i: int|
                0 <= i < m.gaps.len() && (#[trigger] m.gaps[i]).0 <= x <= m.gaps[i].1;
            if i > 0 {
                assert(rest[i - 1] == m.gaps[i]);
            }
        }
    }
}

/// A number that fits a descriptor is on a keep-list exactly when the list
/// holds it.
pub proof fn lemma_kept(k: Seq<i32>, x: i32)
    ensures
        kept(k, x as int) == k.contains(x),
{
    if k.contains(x) {
        let i = choose|i: int| 0 <= i < k.len() && k[i] == x;
        assert(k[i] == x as int);
    }
}

proof fn lemma_gaps_due(m: SweepView, w: World, k: Seq<i32>, settled0: Set<int>)
    requires
        holds(m, w, k, settled0),
        m.sorted,
        m.gaps == gaps_from(m.minfd as int, m.keep),
        w.frontier == m.minfd,
    ensures
        forall|x: int| in_gaps(m.gaps, x) ==> due(m.minfd, k, x),
        forall|i: int|
            0 <= i < m.gaps.len() ==> 0 <= (#[trigger] m.gaps[i]).0 <= m.gaps[i].1 <= i32::MAX,
        forall|x: int| pending_work(m.minfd, w, k, x) ==> in_gaps(m.gaps, x),
{
    lemma_gaps_shape(m.minfd as int, m.keep);
    lemma_gaps_cover(m.minfd as int, m.keep);
    assert forall|x: int| in_gaps(m.gaps, x) implies due(m.minfd, k, x) by {
        let i = choose|i: int| 0 <= i < m.gaps.len() && (#[trigger] m.gaps[i]).0 <= x <= m.gaps[i].1;
        let y = x as i32;
        lemma_kept(m.keep, y);
        assert(in_gaps(m.gaps, y as int));
    }
    assert forall|x: int| pending_work(m.minfd, w, k, x) implies in_gaps(m.gaps, x) by {
        let y = x as i32;
        lemma_kept(m.keep, y);
        assert(in_gaps(m.gaps, y as int) <==> (m.minfd <= y && !m.keep.contains(y)));
    }
}

proof fn lemma_step_start(r: Run, reply: Reply, k: Seq<i32>, settled0: Set<int>)
    requires
        inv(r, k, settled0),
        r.s.stage is Start,
    ensures
        inv(r.step(reply), k, settled0),
{
    let m = r.s;
    let w = r.step(reply).w;
    assert(w == r.w);
    assert forall|x: int| pending_work(m.minfd, w, k, x) implies x >= w.frontier by {}
    lemma_proceed(m, w, k, settled0);
    if m.sorted {
        lemma_gaps_due(m, w, k, settled0);
        lemma_next_gap(m, w, k, settled0);
    }
}

proof fn lemma_step_probe(r: Run, reply: Reply, k: Seq<i32>, settled0: Set<int>)
    requires
        inv(r, k, settled0),
        r.s.stage is AwaitProbe,
    ensures
        inv(r.step(reply), k, settled0),
{
    let w = r.step(reply).w;
    assert(w == r.w);
    let a = r.s.with_cap(crate::sys::Capability::Available);
    let u = r.s.with_cap(crate::sys::Capability::Unavailable);
    assert forall|x: int| pending_work(u.minfd, w, k, x) implies x >= w.frontier by {}
    lemma_proceed(u, w, k, settled0);
    lemma_gaps_due(a, w, k, settled0);
    lemma_next_gap(a, w, k, settled0);
}

proof fn lemma_step_all(r: Run, reply: Reply, k: Seq<i32>, settled0: Set<int>)
    requires
        inv(r, k, settled0),
        r.s.stage is AwaitAll,
    ensures
        inv(r.step(reply), k, settled0),
{
    let w = r.step(reply).w;
    if succeeded(reply) {
        assert(w.settled == r.w.settled.union(between(r.s.minfd as int, u32::MAX as int)));
        assert forall|x: int| !pending_work(r.s.minfd, w, k, x) by {
            if pending_work(r.s.minfd, w, k, x) {
                assert(between(r.s.minfd as int, u32::MAX as int).contains(x));
            }
        }
        lemma_done(r.s, w, k, settled0);
    } else {
        assert(w == r.w);
        let m = r.s.downgraded();
        assert forall|x: int| pending_work(m.minfd, w, k, x) implies x >= w.frontier by {}
        lemma_proceed(m, w, k, settled0);
    }
}

proof fn lemma_step_gap(r: Run, reply: Reply, k: Seq<i32>, settled0: Set<int>)
    requires
        inv(r, k, settled0),
        r.s.stage is AwaitGap,
    ensures
        inv(r.step(reply), k, settled0),
{
    let w = r.step(reply).w;
    let (low, high) = last_range(r.last)->Some_0;
    if succeeded(reply) {
        assert(w.settled == r.w.settled.union(between(low, high)));
        assert forall|x: int| pending_work(r.s.minfd, w, k, x) implies in_gaps(r.s.gaps, x) by {
            assert(pending_work(r.s.minfd, r.w, k, x));
            assert(owed(r, x));
            assert(!between(low, high).contains(x));
        }
        lemma_next_gap(r.s, w, k, settled0);
    } else {
        assert(w == r.w);
        let m = r.s.downgraded();
        assert forall|x: int| pending_work(m.minfd, w, k, x) implies x >= w.frontier by {}
        lemma_proceed(m, w, k, settled0);
    }
}

proof fn lemma_step_applied(r: Run, reply: Reply, k: Seq<i32>, settled0: Set<int>)
    requires
        inv(r, k, settled0),
        r.s.stage is AwaitApplied,
    ensures
        inv(r.step(reply), k, settled0),
{
    let w = r.step(reply).w;
    let fd = last_single(r.last)->Some_0;
    assert(w.settled == r.w.settled.insert(fd));
    assert forall|x: int| pending_work(r.s.minfd, w, k, x) implies x >= w.frontier by {
        assert(pending_work(r.s.minfd, r.w, k, x));
        assert(owed(r, x));
    }
    lemma_proceed(r.s, w, k, settled0);
}

proof fn lemma_step_flags(r: Run, reply: Reply, k: Seq<i32>, settled0: Set<int>)
    requires
        inv(r, k, settled0),
        r.s.stage is AwaitFlags,
    ensures
        inv(r.step(reply), k, settled0),
{
    let w = r.step(reply).w;
    let fd = r.s.stage->AwaitFlags_fd;
    if writes_flags(reply) {
        assert(w == r.w);
        let r2 = r.step(reply);
        assert forall|x: int| pending_work(r2.s.minfd, r2.w, k, x) implies owed(r2, x) by {
            assert(pending_work(r.s.minfd, r.w, k, x));
            assert(owed(r, x));
        }
    } else {
        assert(w.settled == r.w.settled.insert(fd as int));
        assert forall|x: int| pending_work(r.s.minfd, w, k, x) implies x >= w.frontier by {
            assert(pending_work(r.s.minfd, r.w, k, x));
            assert(owed(r, x));
        }
        lemma_proceed(r.s, w, k, settled0);
    }
}

proof fn lemma_step_rest(r: Run, reply: Reply, k: Seq<i32>, settled0: Set<int>)
    requires
        inv(r, k, settled0),
        r.s.stage is AwaitRest,
    ensures
        inv(r.step(reply), k, settled0),
{
    let w = r.step(reply).w;
    let fd = r.s.stage->AwaitRest_fd;
    if succeeded(reply) {
        assert(w.settled == r.w.settled.union(between(fd as int, u32::MAX as int)));
        assert forall|x: int| !pending_work(r.s.minfd, w, k, x) by {
            if pending_work(r.s.minfd, w, k, x) {
                assert(pending_work(r.s.minfd, r.w, k, x));
                assert(owed(r, x));
                assert(between(fd as int, u32::MAX as int).contains(x));
            }
        }
        let (iter, handle) = r.s.iter.release();
        let m = SweepView { iter, ..r.s };
        lemma_done(m, w, k, settled0);
        let r2 = r.step(reply);
        assert forall|x: int| pending_work(r2.s.minfd, r2.w, k, x) implies owed(r2, x) by {
            assert(pending_work(r.s.minfd, w, k, x));
        }
    } else {
        assert(w == r.w);
        let m = SweepView { rest: true, ..r.s.downgraded() };
        assert(due(m.minfd, k, fd as int));
        assert forall|x: int| pending_work(m.minfd, w, k, x) implies x >= w.frontier || x == fd by {
            assert(owed(r, x));
        }
        lemma_single(m, w, fd, k, settled0);
    }
}

proof fn lemma_step_tail(r: Run, reply: Reply, k: Seq<i32>, settled0: Set<int>)
    requires
        inv(r, k, settled0),
        r.s.stage is AwaitReleaseThenCloseFrom || r.s.stage is AwaitLast || r.s.stage is Done,
    ensures
        inv(r.step(reply), k, settled0),
{
    let r2 = r.step(reply);
    let w = r2.w;
    match r.s.stage {
        Stage::AwaitReleaseThenCloseFrom { fd } => {
            assert(w == r.w);
            assert forall|x: int| pending_work(r2.s.minfd, r2.w, k, x) implies owed(r2, x) by {
                assert(owed(r, x));
            }
        },
        Stage::AwaitLast => {
            if let Poll::Pending(Request::CloseFrom { fd }) = r.last {
                assert(w.settled == r.w.settled.union(from(fd as int)));
                assert forall|x: int| !pending_work(r.s.minfd, w, k, x) by {
                    if pending_work(r.s.minfd, w, k, x) {
                        assert(pending_work(r.s.minfd, r.w, k, x));
                        assert(owed(r, x));
                        assert(from(fd as int).contains(x));
                    }
                }
            } else {
                assert(w == r.w);
                assert forall|x: int| !pending_work(r.s.minfd, w, k, x) by {
                    if pending_work(r.s.minfd, w, k, x) {
                        assert(owed(r, x));
                    }
                }
            }
            lemma_done(r.s, w, k, settled0);
        },
        _ => {
            assert forall|x: int| !pending_work(r.s.minfd, r.w, k, x) by {
                if pending_work(r.s.minfd, r.w, k, x) {
                    assert(owed(r, x));
                }
            }
            assert(r2.w.settled == r.w.settled);
        },
    }
}

proof fn lemma_on_fd(m: SweepView, w: World, fd: i32, k: Seq<i32>, settled0: Set<int>)
    requires
        holds(m, w, k, settled0),
        m.minfd <= fd,
        w.frontier == fd + 1,
        forall|x: int| x >= fd ==> (kept(m.keep, x) <==> kept(k, x)),
        m.rest ==> fd > m.max_keep,
        forall|x: int| pending_work(m.minfd, w, k, x) ==> x >= fd,
    ensures
        inv(Run { s: m.on_fd(fd).0, w, last: m.on_fd(fd).1 }, k, settled0),
{
    let r = Run { s: m.on_fd(fd).0, w, last: m.on_fd(fd).1 };
    if m.rest {
        lemma_single(m, w, fd, k, settled0);
    } else if fd > m.max_keep {
        if m.closefrom() {
            assert forall|x: int| pending_work(r.s.minfd, r.w, k, x) implies owed(r, x) by {
                assert(pending_work(m.minfd, w, k, x));
            }
        } else if m.may_try_range() {
            assert(to_u32_spec(fd) == fd);
            assert forall|x: int| pending_work(r.s.minfd, r.w, k, x) implies owed(r, x) by {
                assert(pending_work(m.minfd, w, k, x));
            }
        } else {
            lemma_single(SweepView { rest: true, ..m }, w, fd, k, settled0);
        }
    } else if m.sorted {
        lemma_walk_sorted(m.keep, fd);
        lemma_kept(m.keep, fd);
        let keep = m.keep.skip(count_below(m.keep, fd));
        let n = SweepView { keep, ..m };
        assert forall|x: int| x >= w.frontier implies (kept(n.keep, x) <==> kept(k, x)) by {
            if i32::MIN <= x <= i32::MAX {
                lemma_kept(m.keep, x as i32);
                lemma_kept(keep, x as i32);
            } else {
                if kept(keep, x) {
                    let i = choose|i: int| 0 <= i < keep.len() && keep[i] == x;
                }
                if kept(k, x) {
                    let i = choose|i: int| 0 <= i < k.len() && k[i] == x;
                }
            }
        }
        if keep.len() > 0 && keep[0] == fd {
            assert forall|x: int| pending_work(n.minfd, w, k, x) implies x >= w.frontier by {}
            lemma_proceed(n, w, k, settled0);
        } else {
            lemma_single(n, w, fd, k, settled0);
        }
    } else {
        lemma_kept(m.keep, fd);
        if m.keep.contains(fd) {
            assert forall|x: int| pending_work(m.minfd, w, k, x) implies x >= w.frontier by {}
            lemma_proceed(m, w, k, settled0);
        } else {
            lemma_single(m, w, fd, k, settled0);
        }
    }
}

proof fn lemma_step_enumerate(r: Run, reply: Reply, k: Seq<i32>, settled0: Set<int>)
    requires
        inv(r, k, settled0),
        r.s.stage is Enumerate,
        r.faithful(reply),
    ensures
        inv(r.step(reply), k, settled0),
{
    let r2 = r.step(reply);
    let w = r2.w;
    assert(w.settled == r.w.settled);
    let (iter, res) = r.s.iter.next(reply);
    let m = SweepView { iter, ..r.s };
    lemma_requests(r.s.iter, reply);
    match res {
        Poll::Pending(req) => {
            assert(w == r.w);
            assert forall|x: int| pending_work(r2.s.minfd, r2.w, k, x) implies owed(r2, x) by {
                assert(owed(r, x));
            }
        },
        Poll::Ready(None) => {
            assert(w == r.w);
            assert forall|x: int| !pending_work(m.minfd, w, k, x) by {
                if pending_work(m.minfd, w, k, x) {
                    assert(owed(r, x));
                }
            }
            lemma_done(m, w, k, settled0);
        },
        Poll::Ready(Some(fd)) => {
            assert(w.frontier == fd + 1);
            assert forall|x: int| pending_work(m.minfd, w, k, x) implies x >= fd by {
                assert(owed(r, x));
            }
            lemma_on_fd(m, w, fd, k, settled0);
        },
    }
}

/// A step at which the enumeration tells the truth keeps what holds of the
/// sweep.
pub proof fn lemma_step_inv(r: Run, reply: Reply, k: Seq<i32>, settled0: Set<int>)
    requires
        inv(r, k, settled0),
        r.faithful(reply),
    ensures
        inv(r.step(reply), k, settled0),
{
    match r.s.stage {
        Stage::Start => lemma_step_start(r, reply, k, settled0),
        Stage::AwaitProbe => lemma_step_probe(r, reply, k, settled0),
        Stage::AwaitAll => lemma_step_all(r, reply, k, settled0),
        Stage::AwaitGap => lemma_step_gap(r, reply, k, settled0),
        Stage::Enumerate => lemma_step_enumerate(r, reply, k, settled0),
        Stage::AwaitRest { fd } => lemma_step_rest(r, reply, k, settled0),
        Stage::AwaitFlags { fd } => lemma_step_flags(r, reply, k, settled0),
        Stage::AwaitApplied => lemma_step_applied(r, reply, k, settled0),
        _ => lemma_step_tail(r, reply, k, settled0),
    }
}

/// What holds of a sweep holds after any run at every step of which the
/// enumeration tells the truth.
pub proof fn lemma_run_inv(r: Run, replies: Seq<Reply>, k: Seq<i32>, settled0: Set<int>)
    requires
        inv(r, k, settled0),
        r.faithful_run(replies),
    ensures
        inv(r.run(replies), k, settled0),
    decreases replies.len(),
{
    if replies.len() > 0 {
        let before = replies.drop_last();
        assert forall|i: int| 0 <= i < before.len() implies (#[trigger] r.run(
            before.take(i),
        )).faithful(before[i]) by {
            assert(before.take(i) =~= replies.take(i));
        }
        lemma_run_inv(r, before, k, settled0);
        assert(replies.take(replies.len() - 1) =~= before);
        assert(r.run(replies.take(replies.len() - 1)).faithful(replies[replies.len() - 1]));
        lemma_step_inv(r.run(before), replies.last(), k, settled0);
    }
}

/// The threshold as a sweep takes it: 0 where it is negative.
pub open spec fn clamp(minfd: i32) -> int {
    if minfd < 0 {
        0
    } else {
        minfd as int
    }
}

/// The number `x` is one that a sweep from the threshold `minfd` with the
/// keep-list `k` is to work on: it is at or above the threshold and not kept.
pub open spec fn swept(minfd: i32, k: Seq<i32>, x: int) -> bool {
    x >= clamp(minfd) && !kept(k, x)
}

/// A fresh sweep in a process whose descriptors fit a descriptor number is in
/// the state of which [`inv`] speaks, and its threshold lies at or above the
/// one it was given, with nothing but kept descriptors between the two.
pub proof fn lemma_fresh(
    mode: Mode,
    minfd: i32,
    keep: KeepFdsView,
    builder: FdIterBuilderView,
    sys: Sys,
    open: Set<int>,
    settled0: Set<int>,
)
    requires
        keep.wf(),
        forall|x: int| open.contains(x) ==> x <= i32::MAX,
    ensures
        ({
            let s = SweepView::fresh(mode, minfd, keep, builder, sys);
            &&& inv(Run::start(s, open, settled0), keep.fds, settled0)
            &&& clamp(minfd) <= s.minfd
            &&& forall|x: int| clamp(minfd) <= x < s.minfd ==> kept(keep.fds, x)
        }),
{
    let s = SweepView::fresh(mode, minfd, keep, builder, sys);
    let low = clamp(minfd);
    let k = keep.fds;
    assert forall|x: int| kept(k, x) implies x <= s.max_keep by {
        let i = choose|i: int| 0 <= i < k.len() && k[i] == x;
        assert(k[i] <= keep.max);
    }
    if keep.sorted {
        lemma_simplify_preserves(k, low);
        let (fds, u) = simplify_spec(k, low);
        let n = choose|n: int| 0 <= n <= k.len() && fds == k.skip(n);
        assert forall|i: int, j: int| 0 <= i <= j < fds.len() implies fds[i] <= fds[j] by {
            assert(k[i + n] <= k[j + n]);
        }
        assert forall|x: int| x >= s.minfd implies (kept(s.keep, x) <==> kept(k, x)) by {
            if i32::MIN <= x <= i32::MAX {
                lemma_kept(fds, x as i32);
                lemma_kept(k, x as i32);
            } else {
                if kept(fds, x) {
                    let i = choose|i: int| 0 <= i < fds.len() && fds[i] == x;
                }
                if kept(k, x) {
                    let i = choose|i: int| 0 <= i < k.len() && k[i] == x;
                }
            }
        }
        assert forall|x: int| low <= x < s.minfd implies kept(k, x) by {
            lemma_kept(k, x as i32);
        }
    }
}

/// The end state of a sweep: every open descriptor at or above the threshold
/// that is not kept has been closed or marked, and nothing else has been
/// touched. This holds for either kind of sweep, on any kernel, with any
/// options, whatever is known of the kernel and whichever calls fail, as long
/// as the keep-list is in ascending order where it is taken to be, and the
/// enumeration, where the sweep falls back on it, tells the truth.
pub proof fn lemma_sweep(
    mode: Mode,
    minfd: i32,
    keep: KeepFdsView,
    builder: FdIterBuilderView,
    sys: Sys,
    open: Set<int>,
    settled0: Set<int>,
    replies: Seq<Reply>,
)
    requires
        keep.wf(),
        forall|x: int| open.contains(x) ==> x <= i32::MAX,
        Run::start(SweepView::fresh(mode, minfd, keep, builder, sys), open, settled0).faithful_run(
            replies,
        ),
        Run::start(SweepView::fresh(mode, minfd, keep, builder, sys), open, settled0).run(
            replies,
        ).last is Ready,
    ensures
        ({
            let end = Run::start(
                SweepView::fresh(mode, minfd, keep, builder, sys),
                open,
                settled0,
            ).run(replies);
            &&& forall|x: int| #[trigger]
                open.contains(x) ==> (end.w.settled.contains(x) <==> settled0.contains(x) || swept(
                    minfd,
                    keep.fds,
                    x,
                ))
            &&& forall|x: int| #[trigger]
                end.w.settled.contains(x) ==> settled0.contains(x) || swept(minfd, keep.fds, x)
            &&& forall|x: int| settled0.contains(x) ==> end.w.settled.contains(x)
            &&& end.w.open == open
        }),
{
    let s = SweepView::fresh(mode, minfd, keep, builder, sys);
    let start = Run::start(s, open, settled0);
    lemma_fresh(mode, minfd, keep, builder, sys, open, settled0);
    lemma_run_inv(start, replies, keep.fds, settled0);
    lemma_run_keeps(start, replies);
    let end = start.run(replies);
    assert forall|x: int| #[trigger]
        open.contains(x) implies (end.w.settled.contains(x) <==> settled0.contains(x) || swept(
        minfd,
        keep.fds,
        x,
    )) by {
        if swept(minfd, keep.fds, x) && !end.w.settled.contains(x) {
            assert(pending_work(end.s.minfd, end.w, keep.fds, x));
            assert(owed(end, x));
        }
    }
}

/// A run changes neither the threshold of the sweep nor which descriptors
/// were open when it started.
pub proof fn lemma_run_keeps(r: Run, replies: Seq<Reply>)
    ensures
        r.run(replies).s.minfd == r.s.minfd,
        r.run(replies).w.open == r.w.open,
    decreases replies.len(),
{
    if replies.len() > 0 {
        lemma_run_keeps(r, replies.drop_last());
        lemma_resume_keeps(r.run(replies.drop_last()).s, replies.last());
    }
}

proof fn lemma_resume_keeps(s: SweepView, reply: Reply)
    ensures
        s.resume(reply).0.minfd == s.minfd,
{
}

/// Whether the keep-list is handed over as known to be ascending or is
/// inspected first makes no difference to what a sweep leaves behind: with
/// the same descriptors kept, the same threshold and the same descriptors
/// open, both sweeps settle the same open descriptors.
pub proof fn lemma_presorted_agrees(
    mode: Mode,
    minfd: i32,
    presorted: KeepFdsView,
    inspected: KeepFdsView,
    builder: FdIterBuilderView,
    sys: Sys,
    open: Set<int>,
    settled0: Set<int>,
    replies_presorted: Seq<Reply>,
    replies_inspected: Seq<Reply>,
)
    requires
        presorted.wf(),
        presorted.sorted,
        inspected.wf(),
        forall|x: int| kept(presorted.fds, x) <==> kept(inspected.fds, x),
        forall|x: int| open.contains(x) ==> x <= i32::MAX,
        Run::start(SweepView::fresh(mode, minfd, presorted, builder, sys), open, settled0).faithful_run(
            replies_presorted,
        ),
        Run::start(SweepView::fresh(mode, minfd, presorted, builder, sys), open, settled0).run(
            replies_presorted,
        ).last is Ready,
        Run::start(SweepView::fresh(mode, minfd, inspected, builder, sys), open, settled0).faithful_run(
            replies_inspected,
        ),
        Run::start(SweepView::fresh(mode, minfd, inspected, builder, sys), open, settled0).run(
            replies_inspected,
        ).last is Ready,
    ensures
        forall|x: int|
            open.contains(x) ==> (Run::start(
                SweepView::fresh(mode, minfd, presorted, builder, sys),
                open,
                settled0,
            ).run(replies_presorted).w.settled.contains(x) <==> Run::start(
                SweepView::fresh(mode, minfd, inspected, builder, sys),
                open,
                settled0,
            ).run(replies_inspected).w.settled.contains(x)),
{
    lemma_sweep(mode, minfd, presorted, builder, sys, open, settled0, replies_presorted);
    lemma_sweep(mode, minfd, inspected, builder, sys, open, settled0, replies_inspected);
    assert forall|x: int| swept(minfd, presorted.fds, x) == swept(minfd, inspected.fds, x) by {}
}

/// Which way a sweep takes makes no difference to what it leaves behind.
/// Whether the kernel works on ranges or the descriptors are enumerated,
/// whether the enumeration reads the kernel's listing or scans, and whichever
/// calls fail: with the same keep-list, the same threshold and the same
/// descriptors open, two sweeps settle the same open descriptors.
pub proof fn lemma_paths_agree(
    mode: Mode,
    minfd: i32,
    keep: KeepFdsView,
    builder_a: FdIterBuilderView,
    sys_a: Sys,
    replies_a: Seq<Reply>,
    builder_b: FdIterBuilderView,
    sys_b: Sys,
    replies_b: Seq<Reply>,
    open: Set<int>,
    settled0: Set<int>,
)
    requires
        keep.wf(),
        forall|x: int| open.contains(x) ==> x <= i32::MAX,
        Run::start(SweepView::fresh(mode, minfd, keep, builder_a, sys_a), open, settled0).faithful_run(
            replies_a,
        ),
        Run::start(SweepView::fresh(mode, minfd, keep, builder_a, sys_a), open, settled0).run(
            replies_a,
        ).last is Ready,
        Run::start(SweepView::fresh(mode, minfd, keep, builder_b, sys_b), open, settled0).faithful_run(
            replies_b,
        ),
        Run::start(SweepView::fresh(mode, minfd, keep, builder_b, sys_b), open, settled0).run(
            replies_b,
        ).last is Ready,
    ensures
        forall|x: int|
            open.contains(x) ==> (Run::start(
                SweepView::fresh(mode, minfd, keep, builder_a, sys_a),
                open,
                settled0,
            ).run(replies_a).w.settled.contains(x) <==> Run::start(
                SweepView::fresh(mode, minfd, keep, builder_b, sys_b),
                open,
                settled0,
            ).run(replies_b).w.settled.contains(x)),
{
    lemma_sweep(mode, minfd, keep, builder_a, sys_a, open, settled0, replies_a);
    lemma_sweep(mode, minfd, keep, builder_b, sys_b, open, settled0, replies_b);
}

/// A sweep made a second time changes nothing: started where the first one
/// ended, with the same keep-list and threshold, it settles no open
/// descriptor that the first one had not settled.
pub proof fn lemma_idempotent(
    mode: Mode,
    minfd: i32,
    keep: KeepFdsView,
    builder: FdIterBuilderView,
    sys: Sys,
    open: Set<int>,
    settled0: Set<int>,
    first: Seq<Reply>,
    sys_again: Sys,
    second: Seq<Reply>,
)
    requires
        keep.wf(),
        forall|x: int| open.contains(x) ==> x <= i32::MAX,
        Run::start(SweepView::fresh(mode, minfd, keep, builder, sys), open, settled0).faithful_run(
            first,
        ),
        Run::start(SweepView::fresh(mode, minfd, keep, builder, sys), open, settled0).run(
            first,
        ).last is Ready,
        Run::start(
            SweepView::fresh(mode, minfd, keep, builder, sys_again),
            open,
            Run::start(SweepView::fresh(mode, minfd, keep, builder, sys), open, settled0).run(
                first,
            ).w.settled,
        ).faithful_run(second),
        Run::start(
            SweepView::fresh(mode, minfd, keep, builder, sys_again),
            open,
            Run::start(SweepView::fresh(mode, minfd, keep, builder, sys), open, settled0).run(
                first,
            ).w.settled,
        ).run(second).last is Ready,
    ensures
        forall|x: int|
            open.contains(x) ==> (Run::start(
                SweepView::fresh(mode, minfd, keep, builder, sys_again),
                open,
                Run::start(SweepView::fresh(mode, minfd, keep, builder, sys), open, settled0).run(
                    first,
                ).w.settled,
            ).run(second).w.settled.contains(x) <==> Run::start(
                SweepView::fresh(mode, minfd, keep, builder, sys),
                open,
                settled0,
            ).run(first).w.settled.contains(x)),
{
    let once = Run::start(SweepView::fresh(mode, minfd, keep, builder, sys), open, settled0).run(
        first,
    ).w.settled;
    lemma_sweep(mode, minfd, keep, builder, sys, open, settled0, first);
    lemma_sweep(mode, minfd, keep, builder, sys_again, open, once, second);
}

/// What a sweep that closes leaves open: of the descriptors that were open,
/// those below the threshold and those that are kept, and no other.
pub proof fn lemma_close_leaves(
    minfd: i32,
    keep: KeepFdsView,
    builder: FdIterBuilderView,
    sys: Sys,
    open: Set<int>,
    replies: Seq<Reply>,
)
    requires
        keep.wf(),
        forall|x: int| open.contains(x) ==> x <= i32::MAX,
        Run::start(
            SweepView::fresh(Mode::Close, minfd, keep, builder, sys),
            open,
            Set::<int>::empty(),
        ).faithful_run(replies),
        Run::start(
            SweepView::fresh(Mode::Close, minfd, keep, builder, sys),
            open,
            Set::<int>::empty(),
        ).run(replies).last is Ready,
    ensures
        forall|x: int|
            open.difference(
                Run::start(
                    SweepView::fresh(Mode::Close, minfd, keep, builder, sys),
                    open,
                    Set::<int>::empty(),
                ).run(replies).w.settled,
            ).contains(x) <==> open.contains(x) && !swept(minfd, keep.fds, x),
{
    lemma_sweep(Mode::Close, minfd, keep, builder, sys, open, Set::<int>::empty(), replies);
}

/// Closing and then enumerating: after a sweep that closes, an enumeration
/// from the same threshold that tells the truth of what is left open hands
/// out exactly the kept descriptors at or above the threshold that were open
/// before the sweep.
pub proof fn lemma_close_then_enumerate(
    minfd: i32,
    keep: KeepFdsView,
    builder: FdIterBuilderView,
    sys: Sys,
    open: Set<int>,
    replies: Seq<Reply>,
    after: FdIterBuilderView,
    sys_after: Sys,
    walk: Seq<Reply>,
)
    requires
        keep.wf(),
        forall|x: int| open.contains(x) ==> x <= i32::MAX,
        Run::start(
            SweepView::fresh(Mode::Close, minfd, keep, builder, sys),
            open,
            Set::<int>::empty(),
        ).faithful_run(replies),
        Run::start(
            SweepView::fresh(Mode::Close, minfd, keep, builder, sys),
            open,
            Set::<int>::empty(),
        ).run(replies).last is Ready,
        Walk::start(
            FdIterView::fresh(
                minfd,
                after.possible,
                after.threadsafe,
                after.allow_filesystem,
                sys_after,
            ),
        ).truthful_run(
            open.difference(
                Run::start(
                    SweepView::fresh(Mode::Close, minfd, keep, builder, sys),
                    open,
                    Set::<int>::empty(),
                ).run(replies).w.settled,
            ),
            walk,
        ),
        Walk::start(
            FdIterView::fresh(
                minfd,
                after.possible,
                after.threadsafe,
                after.allow_filesystem,
                sys_after,
            ),
        ).run(walk).ended,
    ensures
        forall|x: int|
            seen(
                Walk::start(
                    FdIterView::fresh(
                        minfd,
                        after.possible,
                        after.threadsafe,
                        after.allow_filesystem,
                        sys_after,
                    ),
                ).run(walk).fds,
                x,
            ) <==> open.contains(x) && x >= clamp(minfd) && kept(keep.fds, x),
{
    let it = FdIterView::fresh(
        minfd,
        after.possible,
        after.threadsafe,
        after.allow_filesystem,
        sys_after,
    );
    let left = open.difference(
        Run::start(
            SweepView::fresh(Mode::Close, minfd, keep, builder, sys),
            open,
            Set::<int>::empty(),
        ).run(replies).w.settled,
    );
    lemma_close_leaves(minfd, keep, builder, sys, open, replies);
    lemma_enumerate_exact(it, left, walk);
    assert(it.floor() == clamp(minfd));
    let fds = Walk::start(it).run(walk).fds;
    assert forall|x: int| seen(fds, x) <==> open.contains(x) && x >= clamp(minfd) && kept(
        keep.fds,
        x,
    ) by {
        assert(seen(fds, x) <==> left.contains(x) && it.floor() <= x);
        assert(left.contains(x) <==> open.contains(x) && !swept(minfd, keep.fds, x));
    }
}

/// The numbers that a sweep need not attend to: those that are no open
/// descriptor, and those that are settled.
pub open spec fn dead(w: World) -> Set<int> {
    Set::new(|x: int| !w.open.contains(x) || w.settled.contains(x))
}

/// The enumeration of a sweep at this stage may still take a step.
pub open spec fn enumerating(stage: Stage) -> bool {
    !(stage is AwaitReleaseThenCloseFrom || stage is AwaitLast || stage is Done)
}

impl Run {
    /// The kernel is honest with the enumeration at the step that `reply`
    /// answers: see [`honest`].
    pub open spec fn honest(self, reply: Reply) -> bool {
        self.s.stage is Enumerate ==> honest(self.s.iter, dead(self.w), reply)
    }

    /// The kernel is honest with the enumeration at every step of the run.
    pub open spec fn honest_run(self, replies: Seq<Reply>) -> bool {
        forall|i: int|
            0 <= i < replies.len() ==> (#[trigger] self.run(replies.take(i))).honest(replies[i])
    }
}

/// What holds of a sweep on an honest kernel at every step: what [`inv`]
/// says, and the enumeration, as long as it may take a step, agrees with what
/// is dead.
pub open spec fn inv_kernel(r: Run, k: Seq<i32>, settled0: Set<int>) -> bool {
    &&& inv(r, k, settled0)
    &&& (enumerating(r.s.stage) ==> tracks(r.s.iter, r.w.frontier, dead(r.w)))
}

proof fn lemma_resume_iter(s: SweepView, reply: Reply)
    ensures
        enumerating(s.resume(reply).0.stage) ==> s.resume(reply).0.iter == (if s.stage
            is Enumerate {
            s.iter.next(reply).0
        } else {
            s.iter
        }),
{
}

/// On an honest kernel the enumeration of a sweep tells the truth.
pub proof fn lemma_honest_is_faithful(r: Run, reply: Reply, k: Seq<i32>, settled0: Set<int>)
    requires
        inv_kernel(r, k, settled0),
        r.honest(reply),
    ensures
        r.faithful(reply),
{
    if r.s.stage is Enumerate {
        lemma_honest_step(r.s.iter, r.w.frontier, dead(r.w), reply);
        let res = r.s.iter.next(reply).1;
        match res {
            Poll::Ready(Some(fd)) => {
                assert forall|x: int|
                    r.w.frontier <= x < fd && r.w.open.contains(x) implies r.w.settled.contains(
                    x,
                ) by {
                    assert(dead(r.w).contains(x));
                }
            },
            Poll::Ready(None) => {
                assert forall|x: int|
                    r.w.frontier <= x && r.w.open.contains(x) implies r.w.settled.contains(x) by {
                    assert(dead(r.w).contains(x));
                }
            },
            _ => {},
        }
    }
}

/// A step on an honest kernel keeps what holds of the sweep on an honest
/// kernel.
pub proof fn lemma_step_kernel(r: Run, reply: Reply, k: Seq<i32>, settled0: Set<int>)
    requires
        inv_kernel(r, k, settled0),
        r.honest(reply),
    ensures
        inv_kernel(r.step(reply), k, settled0),
{
    lemma_honest_is_faithful(r, reply, k, settled0);
    lemma_step_inv(r, reply, k, settled0);
    let r2 = r.step(reply);
    lemma_resume_iter(r.s, reply);
    if enumerating(r2.s.stage) {
        lemma_settle_grows(r.s.stage, r.w.settled, r.last, reply);
        assert(dead(r.w).subset_of(dead(r2.w)));
        if r.s.stage is Enumerate {
            lemma_honest_step(r.s.iter, r.w.frontier, dead(r.w), reply);
            lemma_tracks_grow(r2.s.iter, r2.w.frontier, dead(r.w), dead(r2.w));
        } else {
            lemma_tracks_grow(r.s.iter, r.w.frontier, dead(r.w), dead(r2.w));
        }
    }
}

proof fn lemma_settle_grows(stage: Stage, settled: Set<int>, last: Poll<()>, reply: Reply)
    ensures
        settled.subset_of(settle(stage, settled, last, reply)),
{
}

/// What holds of a sweep on an honest kernel holds after any run on one.
pub proof fn lemma_run_kernel(r: Run, replies: Seq<Reply>, k: Seq<i32>, settled0: Set<int>)
    requires
        inv_kernel(r, k, settled0),
        r.honest_run(replies),
    ensures
        inv_kernel(r.run(replies), k, settled0),
    decreases replies.len(),
{
    if replies.len() > 0 {
        let before = replies.drop_last();
        lemma_honest_prefix(r, replies, replies.len() - 1);
        assert(replies.take(replies.len() - 1) =~= before);
        lemma_run_kernel(r, before, k, settled0);
        assert(r.run(replies.take(replies.len() - 1)).honest(replies[replies.len() - 1]));
        lemma_step_kernel(r.run(before), replies.last(), k, settled0);
    }
}

proof fn lemma_honest_prefix(r: Run, replies: Seq<Reply>, n: int)
    requires
        r.honest_run(replies),
        0 <= n <= replies.len(),
    ensures
        r.honest_run(replies.take(n)),
{
    let before = replies.take(n);
    assert forall|i: int| 0 <= i < before.len() implies (#[trigger] r.run(
        before.take(i),
    )).honest(before[i]) by {
        assert(before.take(i) =~= replies.take(i));
    }
}

/// On an honest kernel the enumeration of a sweep tells the truth at every
/// step of a run.
pub proof fn lemma_honest_run_is_faithful(
    r: Run,
    replies: Seq<Reply>,
    k: Seq<i32>,
    settled0: Set<int>,
)
    requires
        inv_kernel(r, k, settled0),
        r.honest_run(replies),
    ensures
        r.faithful_run(replies),
{
    assert forall|i: int| 0 <= i < replies.len() implies (#[trigger] r.run(
        replies.take(i),
    )).faithful(replies[i]) by {
        lemma_honest_prefix(r, replies, i);
        lemma_run_kernel(r, replies.take(i), k, settled0);
        lemma_honest_is_faithful(r.run(replies.take(i)), replies[i], k, settled0);
    }
}

/// On an honest kernel the enumeration of a fresh sweep tells the truth at
/// every step, so that all that is said of sweeps whose enumeration tells the
/// truth holds of sweeps on an honest kernel.
pub proof fn lemma_honest_kernel(
    mode: Mode,
    minfd: i32,
    keep: KeepFdsView,
    builder: FdIterBuilderView,
    sys: Sys,
    open: Set<int>,
    settled0: Set<int>,
    replies: Seq<Reply>,
)
    requires
        keep.wf(),
        forall|x: int| open.contains(x) ==> x <= i32::MAX,
        Run::start(SweepView::fresh(mode, minfd, keep, builder, sys), open, settled0).honest_run(
            replies,
        ),
    ensures
        Run::start(SweepView::fresh(mode, minfd, keep, builder, sys), open, settled0).faithful_run(
            replies,
        ),
{
    let s = SweepView::fresh(mode, minfd, keep, builder, sys);
    let start = Run::start(s, open, settled0);
    lemma_fresh(mode, minfd, keep, builder, sys, open, settled0);
    lemma_fresh_tracks(
        s.minfd,
        true,
        builder.threadsafe || (mode is Close && sys.os.spec_has_closefrom()),
        builder.allow_filesystem,
        sys,
        dead(start.w),
    );
    lemma_honest_run_is_faithful(start, replies, keep.fds, settled0);
}

/// The end state of a sweep on an honest kernel: every open descriptor at or
/// above the threshold that is not kept has been closed or marked, and
/// nothing else has been touched. See [`lemma_sweep`].
pub proof fn lemma_sweep_on_honest_kernel(
    mode: Mode,
    minfd: i32,
    keep: KeepFdsView,
    builder: FdIterBuilderView,
    sys: Sys,
    open: Set<int>,
    settled0: Set<int>,
    replies: Seq<Reply>,
)
    requires
        keep.wf(),
        forall|x: int| open.contains(x) ==> x <= i32::MAX,
        Run::start(SweepView::fresh(mode, minfd, keep, builder, sys), open, settled0).honest_run(
            replies,
        ),
        Run::start(SweepView::fresh(mode, minfd, keep, builder, sys), open, settled0).run(
            replies,
        ).last is Ready,
    ensures
        ({
            let end = Run::start(
                SweepView::fresh(mode, minfd, keep, builder, sys),
                open,
                settled0,
            ).run(replies);
            &&& forall|x: int| #[trigger]
                open.contains(x) ==> (end.w.settled.contains(x) <==> settled0.contains(x) || swept(
                    minfd,
                    keep.fds,
                    x,
                ))
            &&& forall|x: int| #[trigger]
                end.w.settled.contains(x) ==> settled0.contains(x) || swept(minfd, keep.fds, x)
        }),
{
    lemma_honest_kernel(mode, minfd, keep, builder, sys, open, settled0, replies);
    lemma_sweep(mode, minfd, keep, builder, sys, open, settled0, replies);
}

/// Closing and then enumerating, on a kernel that is honest with the sweep
/// and candid with the enumeration that follows: the enumeration, which looks
/// before it hands out, hands out exactly the kept descriptors at or above
/// the threshold that were open before the sweep, in ascending order.
pub proof fn lemma_close_then_enumerate_on_candid_kernel(
    minfd: i32,
    keep: KeepFdsView,
    builder: FdIterBuilderView,
    sys: Sys,
    open: Set<int>,
    replies: Seq<Reply>,
    after: FdIterBuilderView,
    sys_after: Sys,
    walk: Seq<Reply>,
)
    requires
        keep.wf(),
        forall|x: int| open.contains(x) ==> x <= i32::MAX,
        !after.possible,
        Run::start(
            SweepView::fresh(Mode::Close, minfd, keep, builder, sys),
            open,
            Set::<int>::empty(),
        ).honest_run(replies),
        Run::start(
            SweepView::fresh(Mode::Close, minfd, keep, builder, sys),
            open,
            Set::<int>::empty(),
        ).run(replies).last is Ready,
        Walk::start(
            FdIterView::fresh(minfd, false, after.threadsafe, after.allow_filesystem, sys_after),
        ).candid_run(
            open.difference(
                Run::start(
                    SweepView::fresh(Mode::Close, minfd, keep, builder, sys),
                    open,
                    Set::<int>::empty(),
                ).run(replies).w.settled,
            ),
            walk,
        ),
        Walk::start(
            FdIterView::fresh(minfd, false, after.threadsafe, after.allow_filesystem, sys_after),
        ).run(walk).ended,
    ensures
        forall|x: int|
            seen(
                Walk::start(
                    FdIterView::fresh(
                        minfd,
                        false,
                        after.threadsafe,
                        after.allow_filesystem,
                        sys_after,
                    ),
                ).run(walk).fds,
                x,
            ) <==> open.contains(x) && x >= clamp(minfd) && kept(keep.fds, x),
        forall|i: int, j: int|
            0 <= i < j < Walk::start(
                FdIterView::fresh(
                    minfd,
                    false,
                    after.threadsafe,
                    after.allow_filesystem,
                    sys_after,
                ),
            ).run(walk).fds.len() ==> Walk::start(
                FdIterView::fresh(
                    minfd,
                    false,
                    after.threadsafe,
                    after.allow_filesystem,
                    sys_after,
                ),
            ).run(walk).fds[i] < Walk::start(
                FdIterView::fresh(
                    minfd,
                    false,
                    after.threadsafe,
                    after.allow_filesystem,
                    sys_after,
                ),
            ).run(walk).fds[j],
{
    let left = open.difference(
        Run::start(
            SweepView::fresh(Mode::Close, minfd, keep, builder, sys),
            open,
            Set::<int>::empty(),
        ).run(replies).w.settled,
    );
    let it = FdIterView::fresh(minfd, false, after.threadsafe, after.allow_filesystem, sys_after);
    lemma_honest_kernel(Mode::Close, minfd, keep, builder, sys, open, Set::<int>::empty(), replies);
    lemma_close_leaves(minfd, keep, builder, sys, open, replies);
    lemma_enumerate_exact_on_candid_kernel(
        minfd,
        after.threadsafe,
        after.allow_filesystem,
        sys_after,
        left,
        walk,
    );
    let fds = Walk::start(it).run(walk).fds;
    assert forall|x: int| seen(fds, x) <==> open.contains(x) && x >= clamp(minfd) && kept(
        keep.fds,
        x,
    ) by {
        assert(seen(fds, x) <==> left.contains(x) && x >= minfd && x >= 0);
        assert(left.contains(x) <==> open.contains(x) && !swept(minfd, keep.fds, x));
    }
}

impl SweepView {
    /// What holds of a sweep at every step as to what it knows and holds: its
    /// enumeration is well formed, and has taken no step while the sweep
    /// works on ranges; the kernel's release date is asked for only while
    /// nothing is known of closing ranges; and once the enumeration takes no
    /// step any more, it holds no listing directory.
    pub open spec fn wf(self) -> bool {
        &&& self.iter.wf()
        &&& (self.stage is AwaitProbe ==> self.cap() is Unknown)
        &&& (self.stage is Start || self.stage is AwaitProbe || self.stage is AwaitAll
            || self.stage is AwaitGap ==> self.iter.phase is Start)
        &&& (!enumerating(self.stage) ==> self.iter.handle() is None)
    }
}

/// From `s` to `t` what is known of the kernel has only grown, and `t` is
/// well formed.
pub open spec fn grown(s: SweepView, t: SweepView) -> bool {
    &&& t.wf()
    &&& t.iter.sys.os == s.sys.os
    &&& t.iter.sys.dirent == s.sys.dirent
    &&& s.learnt().may_follow(t.learnt())
}

proof fn lemma_release_grown(s: SweepView)
    requires
        s.wf(),
        s.iter.sys.os == s.sys.os && s.iter.sys.dirent == s.sys.dirent,
        s.stage is Enumerate || s.stage is AwaitRest,
    ensures
        grown(s, SweepView { iter: s.iter.release().0, ..s }),
        s.iter.release().0.handle() is None,
        s.iter.release().1 == s.iter.handle(),
{
    lemma_release_handle(s.iter);
}

proof fn lemma_on_fd_grown(s: SweepView, fd: i32)
    requires
        s.wf(),
        s.iter.sys.os == s.sys.os && s.iter.sys.dirent == s.sys.dirent,
        s.stage is Enumerate || s.stage is AwaitRest,
    ensures
        grown(s, s.on_fd(fd).0),
        s.iter.handle() is None ==> grown(s, s.done().0),
        grown(s, s.finish().0),
{
    lemma_release_grown(s);
}

proof fn lemma_enumerate_grown(s: SweepView, reply: Reply)
    requires
        s.wf(),
        s.iter.sys.os == s.sys.os && s.iter.sys.dirent == s.sys.dirent,
        s.stage is Enumerate,
    ensures
        grown(s, s.resume(reply).0),
{
    lemma_step(s.iter, reply);
    lemma_handle(s.iter, reply);
    let (iter, r) = s.iter.next(reply);
    let m = SweepView { iter, ..s };
    assert(grown(s, m));
    match r {
        Poll::Ready(Some(fd)) => {
            lemma_on_fd_grown(m, fd);
        },
        _ => {
            lemma_on_fd_grown(m, 0);
        },
    }
}

proof fn lemma_other_grown(s: SweepView, reply: Reply)
    requires
        s.wf(),
        s.iter.sys.os == s.sys.os && s.iter.sys.dirent == s.sys.dirent,
        !(s.stage is Enumerate),
    ensures
        grown(s, s.resume(reply).0),
{
    match s.stage {
        Stage::AwaitRest { fd } => {
            if succeeded(reply) {
                lemma_on_fd_grown(s, fd);
            }
        },
        _ => {},
    }
}

/// What is known of the kernel only grows: a step of a sweep leaves the
/// kernel's family alone, moves each flag only from unknown to known or from
/// available to unavailable, and never forgets which flavour the kernel is.
pub proof fn lemma_learnt_grows(s: SweepView, reply: Reply)
    requires
        s.wf(),
        s.iter.sys.os == s.sys.os && s.iter.sys.dirent == s.sys.dirent,
    ensures
        grown(s, s.resume(reply).0),
{
    if s.stage is Enumerate {
        lemma_enumerate_grown(s, reply);
    } else {
        lemma_other_grown(s, reply);
    }
}

/// A sweep leaves no listing directory open: it asks for one to be closed
/// only while its enumeration holds it, and when it is done its enumeration
/// holds none.
pub proof fn lemma_sweep_handle(s: SweepView, reply: Reply)
    requires
        s.wf(),
        s.iter.sys.os == s.sys.os && s.iter.sys.dirent == s.sys.dirent,
    ensures
        s.resume(reply).1 is Ready ==> s.resume(reply).0.iter.handle() is None,
        s.resume(reply).1 matches Poll::Pending(Request::CloseListing { dirfd }) ==> s.iter.handle()
            == Some(dirfd) && s.resume(reply).0.iter.handle() is None,
{
    lemma_learnt_grows(s, reply);
    match s.stage {
        Stage::Enumerate => {
            lemma_handle(s.iter, reply);
            let (iter, r) = s.iter.next(reply);
            let m = SweepView { iter, ..s };
            lemma_release_handle(iter);
        },
        Stage::AwaitRest { fd } => {
            lemma_release_handle(s.iter);
        },
        _ => {},
    }
}

/// What is known of the kernel after any number of steps of a fresh sweep
/// may follow what was known when it started.
pub proof fn lemma_run_learnt(
    mode: Mode,
    minfd: i32,
    keep: KeepFdsView,
    builder: FdIterBuilderView,
    sys: Sys,
    w: World,
    replies: Seq<Reply>,
)
    ensures
        ({
            let start = Run { s: SweepView::fresh(mode, minfd, keep, builder, sys), w, last: Poll::<
                (),
            >::Pending(Request::Proceed) };
            &&& sys.may_follow(start.run(replies).s.learnt())
            &&& start.run(replies).s.wf()
            &&& start.run(replies).s.iter.sys.os == sys.os
            &&& start.run(replies).s.iter.sys.dirent == sys.dirent
            &&& start.run(replies).s.sys.os == sys.os
            &&& start.run(replies).s.sys.dirent == sys.dirent
        }),
    decreases replies.len(),
{
    let start = Run {
        s: SweepView::fresh(mode, minfd, keep, builder, sys),
        w,
        last: Poll::<()>::Pending(Request::Proceed),
    };
    if replies.len() > 0 {
        lemma_run_learnt(mode, minfd, keep, builder, sys, w, replies.drop_last());
        let before = start.run(replies.drop_last());
        lemma_learnt_grows(before.s, replies.last());
    } else {
        if keep.sorted {
            lemma_simplify_preserves(keep.fds, clamp(minfd));
        }
    }
}

impl Run {
    /// The enumeration goes upward at the step that `reply` answers: it hands
    /// out no number below those it has passed.
    pub open spec fn upward(self, reply: Reply) -> bool {
        self.s.stage is Enumerate ==> (self.s.iter.next(reply).1 matches Poll::Ready(Some(fd))
            ==> self.w.frontier <= fd)
    }

    /// The enumeration goes upward at every step of the run.
    pub open spec fn upward_run(self, replies: Seq<Reply>) -> bool {
        forall|i: int|
            0 <= i < replies.len() ==> (#[trigger] self.run(replies.take(i))).upward(replies[i])
    }

    /// The kernel's listing is in order at the step that `reply` answers: see
    /// [`FdIterView::orderly`].
    pub open spec fn orderly(self, reply: Reply) -> bool {
        self.s.stage is Enumerate ==> self.s.iter.orderly(reply)
    }

    /// The kernel's listing is in order at every step of the run.
    pub open spec fn orderly_run(self, replies: Seq<Reply>) -> bool {
        forall|i: int|
            0 <= i < replies.len() ==> (#[trigger] self.run(replies.take(i))).orderly(replies[i])
    }

    /// The same sweep in a process with no descriptor open.
    pub open spec fn bare(self) -> Run {
        Run { w: World { open: Set::<int>::empty(), ..self.w }, ..self }
    }
}

proof fn lemma_bare_run(r: Run, replies: Seq<Reply>)
    ensures
        r.bare().run(replies) == r.run(replies).bare(),
    decreases replies.len(),
{
    if replies.len() > 0 {
        lemma_bare_run(r, replies.drop_last());
    }
}

/// A sweep whose enumeration goes upward touches only what is its own to
/// work on: whatever the enumeration leaves out, and whichever calls fail,
/// nothing below the threshold and nothing kept is closed or marked.
pub proof fn lemma_sweep_is_safe(
    mode: Mode,
    minfd: i32,
    keep: KeepFdsView,
    builder: FdIterBuilderView,
    sys: Sys,
    open: Set<int>,
    settled0: Set<int>,
    replies: Seq<Reply>,
)
    requires
        keep.wf(),
        Run::start(SweepView::fresh(mode, minfd, keep, builder, sys), open, settled0).upward_run(
            replies,
        ),
    ensures
        forall|x: int| #[trigger]
            Run::start(SweepView::fresh(mode, minfd, keep, builder, sys), open, settled0).run(
                replies,
            ).w.settled.contains(x) ==> settled0.contains(x) || swept(minfd, keep.fds, x),
{
    let s = SweepView::fresh(mode, minfd, keep, builder, sys);
    let start = Run::start(s, open, settled0);
    let bare = start.bare();
    assert(bare == Run::start(s, Set::<int>::empty(), settled0));
    lemma_fresh(mode, minfd, keep, builder, sys, Set::<int>::empty(), settled0);
    assert forall|i: int| 0 <= i < replies.len() implies (#[trigger] bare.run(
        replies.take(i),
    )).faithful(replies[i]) by {
        lemma_bare_run(start, replies.take(i));
        assert(start.run(replies.take(i)).upward(replies[i]));
    }
    lemma_run_inv(bare, replies, keep.fds, settled0);
    lemma_bare_run(start, replies);
    lemma_run_keeps(bare, replies);
}

/// What holds of the enumeration of a sweep while the kernel's listing is in
/// order: it is well formed, what its listing holds is in order, and the
/// lowest number that it may still hand out is none that it has passed.
pub open spec fn in_order(r: Run) -> bool {
    enumerating(r.s.stage) ==> r.s.iter.wf() && r.s.iter.ordered() && r.w.frontier
        <= r.s.iter.floor()
}

proof fn lemma_in_order_step(r: Run, reply: Reply)
    requires
        in_order(r),
        r.orderly(reply),
    ensures
        in_order(r.step(reply)),
        r.upward(reply),
{
    lemma_resume_iter(r.s, reply);
    if r.s.stage is Enumerate {
        lemma_step_ascending(r.s.iter, reply);
    }
}

proof fn lemma_in_order_run(r: Run, replies: Seq<Reply>)
    requires
        in_order(r),
        r.orderly_run(replies),
    ensures
        in_order(r.run(replies)),
    decreases replies.len(),
{
    if replies.len() > 0 {
        let before = replies.drop_last();
        lemma_orderly_prefix(r, replies, replies.len() - 1);
        assert(replies.take(replies.len() - 1) =~= before);
        lemma_in_order_run(r, before);
        assert(r.run(replies.take(replies.len() - 1)).orderly(replies[replies.len() - 1]));
        lemma_in_order_step(r.run(before), replies.last());
    }
}

proof fn lemma_orderly_prefix(r: Run, replies: Seq<Reply>, n: int)
    requires
        r.orderly_run(replies),
        0 <= n <= replies.len(),
    ensures
        r.orderly_run(replies.take(n)),
{
    let before = replies.take(n);
    assert forall|i: int| 0 <= i < before.len() implies (#[trigger] r.run(
        before.take(i),
    )).orderly(before[i]) by {
        assert(before.take(i) =~= replies.take(i));
    }
}

/// A sweep is safe on any kernel whose listing is in order. Nothing is asked
/// of the kernel but that the records it lists, where a listing is read, go
/// upward: its listing may leave descriptors out, its bound for a scan may be
/// too low, and any call may fail, and still nothing below the threshold and
/// nothing kept is closed or marked.
pub proof fn lemma_sweep_is_safe_in_order(
    mode: Mode,
    minfd: i32,
    keep: KeepFdsView,
    builder: FdIterBuilderView,
    sys: Sys,
    open: Set<int>,
    settled0: Set<int>,
    replies: Seq<Reply>,
)
    requires
        keep.wf(),
        Run::start(SweepView::fresh(mode, minfd, keep, builder, sys), open, settled0).orderly_run(
            replies,
        ),
    ensures
        forall|x: int| #[trigger]
            Run::start(SweepView::fresh(mode, minfd, keep, builder, sys), open, settled0).run(
                replies,
            ).w.settled.contains(x) ==> settled0.contains(x) || swept(minfd, keep.fds, x),
{
    let s = SweepView::fresh(mode, minfd, keep, builder, sys);
    let start = Run::start(s, open, settled0);
    if keep.sorted {
        lemma_simplify_preserves(keep.fds, clamp(minfd));
    }
    assert(in_order(start));
    assert forall|i: int| 0 <= i < replies.len() implies (#[trigger] start.run(
        replies.take(i),
    )).upward(replies[i]) by {
        lemma_orderly_prefix(start, replies, i);
        lemma_in_order_run(start, replies.take(i));
        lemma_in_order_step(start.run(replies.take(i)), replies[i]);
    }
    lemma_sweep_is_safe(mode, minfd, keep, builder, sys, open, settled0, replies);
}

} // verus!
