//! The sweep: the state machine that closes, or marks close-on-exec, what is
//! to go, with as few kernel calls as the kernel allows.

use crate::closefds::{KeepFds, KeepFdsView};
use crate::iterfds::fditer::{FdIter, FdIterView};
use crate::iterfds::{FdIterBuilder, FdIterBuilderView};
use crate::sys::{Capability, Poll, RangeSupport, Reply, Request, Sys, CLOSE_RANGE_OSRELDATE};
use crate::util::{
    check_should_keep, count_below, gaps_from, set_cloexec, set_cloexec_spec, simplify_keep_fds,
    simplify_spec, Gaps,
};
use vstd::prelude::*;

verus! {

/// What a sweep does to a descriptor.
#[derive(Clone, Copy, Debug, PartialEq, Eq, Structural)]
pub enum Mode {
    /// It closes it.
    Close,
    /// It marks it close-on-exec.
    Cloexec,
}

/// Where a sweep stands between two steps.
#[derive(Clone, Copy, Debug, PartialEq, Eq, Structural)]
pub enum Stage {
    /// Nothing has been asked of the kernel yet.
    Start,
    /// The kernel's release date has been asked for, to learn whether ranges
    /// can be worked on.
    AwaitProbe,
    /// One call on everything from the threshold upward has been asked for.
    AwaitAll,
    /// A call on one range between kept descriptors has been asked for.
    AwaitGap,
    /// The descriptors are enumerated and worked on one by one.
    Enumerate,
    /// One call on everything from `fd` upward has been asked for, `fd` being
    /// above every kept descriptor.
    AwaitRest { fd: i32 },
    /// The flags of `fd` have been asked for, to mark it.
    AwaitFlags { fd: i32 },
    /// A call on a single descriptor has been asked for.
    AwaitApplied,
    /// The listing directory is being closed, before everything from `fd`
    /// upward is closed in one call.
    AwaitReleaseThenCloseFrom { fd: i32 },
    /// The last call has been asked for.
    AwaitLast,
    /// Nothing is left to do.
    Done,
}

/// A descriptor number as the range calls take it.
pub open spec fn to_u32_spec(x: i32) -> u32 {
    if x < 0 {
        0
    } else {
        x as u32
    }
}

/// See [`to_u32_spec`].
#[verifier::when_used_as_spec(to_u32_spec)]
pub fn to_u32(x: i32) -> (r: u32)
    ensures
        r == to_u32_spec(x),
{
    if x < 0 {
        0
    } else {
        x as u32
    }
}

/// What the kernel's release date tells of closing ranges: it is there from
/// one release on, and is taken not to be where the date cannot be had.
pub open spec fn check_has_close_range_spec(reply: Reply) -> Capability {
    match reply {
        Reply::Value(date) if date >= CLOSE_RANGE_OSRELDATE => Capability::Available,
        _ => Capability::Unavailable,
    }
}

/// See [`check_has_close_range_spec`].
#[verifier::when_used_as_spec(check_has_close_range_spec)]
pub fn check_has_close_range(reply: Reply) -> (r: Capability)
    ensures
        r == check_has_close_range_spec(reply),
{
    match reply {
        Reply::Value(date) if date >= CLOSE_RANGE_OSRELDATE => Capability::Available,
        _ => Capability::Unavailable,
    }
}

/// The call that tells, on a kernel that must be asked before a range is
/// closed, whether it closes ranges: the question for its release date.
/// Nothing is to be asked of any other kernel, nor once the answer is known.
pub open spec fn probe_spec(sys: Sys) -> Option<Request> {
    if sys.os.spec_close_range() is Probed && sys.close_range is Unknown {
        Some(Request::OsRelDate)
    } else {
        None
    }
}

/// See [`probe_spec`].
#[verifier::when_used_as_spec(probe_spec)]
pub fn probe(sys: Sys) -> (r: Option<Request>)
    ensures
        r == probe_spec(sys),
{
    if matches!(sys.os.close_range(), RangeSupport::Probed) && matches!(
        sys.close_range,
        Capability::Unknown
    ) {
        Some(Request::OsRelDate)
    } else {
        None
    }
}

/// What is known once the call of [`probe`] has been answered.
pub open spec fn probed_spec(sys: Sys, reply: Reply) -> Sys {
    if probe_spec(sys) is Some {
        Sys { close_range: check_has_close_range_spec(reply), ..sys }
    } else {
        sys
    }
}

/// See [`probed_spec`].
#[verifier::when_used_as_spec(probed_spec)]
pub fn probed(sys: Sys, reply: Reply) -> (r: Sys)
    ensures
        r == probed_spec(sys, reply),
        sys.may_follow(r),
{
    if probe(sys).is_some() {
        Sys { close_range: check_has_close_range(reply), ..sys }
    } else {
        sys
    }
}

/// A reply says that a call on a range succeeded.
pub open spec fn succeeded(reply: Reply) -> bool {
    reply matches Reply::Value(v) && v == 0
}

/// The state of a sweep, as contracts speak of it.
pub struct SweepView {
    pub mode: Mode,
    /// The threshold, after the keep-list has been shrunk against it.
    pub minfd: i32,
    /// What is left of the keep-list: the part that descriptors yet to come
    /// can be on, once the list is walked as a cursor.
    pub keep: Seq<i32>,
    /// A number that no kept descriptor exceeds.
    pub max_keep: i32,
    /// Whether the keep-list is taken to be in ascending order.
    pub sorted: bool,
    /// The ranges between kept descriptors that are yet to be worked on.
    pub gaps: Seq<(int, int)>,
    /// The enumeration that the sweep falls back on.
    pub iter: FdIterView,
    pub sys: Sys,
    /// Whether every descriptor yet to come lies above the kept ones.
    pub rest: bool,
    pub stage: Stage,
}

impl SweepView {
    /// How the kernel supports the sweep's call on a range.
    pub open spec fn support(self) -> RangeSupport {
        match self.mode {
            Mode::Close => self.sys.os.spec_close_range(),
            Mode::Cloexec => self.sys.os.spec_cloexec_range(),
        }
    }

    /// What is known of the sweep's call on a range.
    pub open spec fn cap(self) -> Capability {
        match self.mode {
            Mode::Close => self.sys.close_range,
            Mode::Cloexec => self.sys.cloexec_range,
        }
    }

    /// The sweep with something else known of its call on a range.
    pub open spec fn with_cap(self, cap: Capability) -> SweepView {
        match self.mode {
            Mode::Close => SweepView { sys: Sys { close_range: cap, ..self.sys }, ..self },
            Mode::Cloexec => SweepView { sys: Sys { cloexec_range: cap, ..self.sys }, ..self },
        }
    }

    /// The sweep after a call on a range failed: where such calls are tried on
    /// the off chance, they are given up for good.
    pub open spec fn downgraded(self) -> SweepView {
        if self.support() is Optimistic {
            self.with_cap(Capability::Unavailable)
        } else {
            self
        }
    }

    /// Whether a call on a range is worth a try.
    pub open spec fn may_try_range(self) -> bool {
        self.support() is Optimistic && !(self.cap() is Unavailable)
    }

    /// Whether one call closes everything from a descriptor upward.
    pub open spec fn closefrom(self) -> bool {
        self.mode is Close && self.sys.os.spec_has_closefrom()
    }

    /// The sweep's call on the range from `low` to `high`.
    pub open spec fn range(self, low: u32, high: u32) -> Request {
        match self.mode {
            Mode::Close => Request::CloseRange { low, high },
            Mode::Cloexec => Request::CloexecRange { low, high },
        }
    }

    /// A sweep that has not taken a step. The threshold is taken as 0 where it
    /// is negative, and a keep-list that is taken to be ascending is shrunk
    /// against it. The enumeration may hand out numbers unseen, since the
    /// sweep's calls do no harm on a number that is no descriptor; where
    /// everything above a descriptor can be closed in one call, it does not
    /// count the open descriptors to find its bound either.
    pub open spec fn fresh(
        mode: Mode,
        minfd: i32,
        keep: KeepFdsView,
        builder: FdIterBuilderView,
        sys: Sys,
    ) -> SweepView {
        let low = if minfd < 0 {
            0i32
        } else {
            minfd
        };
        let (fds, low) = if keep.sorted {
            (simplify_spec(keep.fds, low as int).0, simplify_spec(keep.fds, low as int).1 as i32)
        } else {
            (keep.fds, low)
        };
        SweepView {
            mode,
            minfd: low,
            keep: fds,
            max_keep: keep.max,
            sorted: keep.sorted,
            gaps: gaps_from(low as int, fds),
            iter: FdIterView::fresh(
                low,
                true,
                builder.threadsafe || (mode is Close && sys.os.spec_has_closefrom()),
                builder.allow_filesystem,
                sys,
            ),
            sys,
            rest: false,
            stage: Stage::Start,
        }
    }

    /// The sweep is over.
    pub open spec fn done(self) -> (SweepView, Poll<()>) {
        (SweepView { stage: Stage::Done, ..self }, Poll::Ready(()))
    }

    /// The sweep goes on with the enumeration at its following step.
    pub open spec fn proceed(self) -> (SweepView, Poll<()>) {
        (SweepView { stage: Stage::Enumerate, ..self }, Poll::Pending(Request::Proceed))
    }

    /// The sweep works on the single descriptor `fd`: it asks for it to be
    /// closed, or for its flags, to mark it.
    pub open spec fn single(self, fd: i32) -> (SweepView, Poll<()>) {
        match self.mode {
            Mode::Close => (
                SweepView { stage: Stage::AwaitApplied, ..self },
                Poll::Pending(Request::Close { fd }),
            ),
            Mode::Cloexec => (
                SweepView { stage: Stage::AwaitFlags { fd }, ..self },
                Poll::Pending(Request::GetFlags { fd }),
            ),
        }
    }

    /// The sweep ends before its enumeration has: the listing directory is
    /// closed first, where the enumeration has one open.
    pub open spec fn finish(self) -> (SweepView, Poll<()>) {
        let (iter, handle) = self.iter.release();
        match handle {
            Some(dirfd) => (
                SweepView { iter, stage: Stage::AwaitLast, ..self },
                Poll::Pending(Request::CloseListing { dirfd }),
            ),
            None => (SweepView { iter, ..self }).done(),
        }
    }

    /// The sweep asks for the next range between kept descriptors to be worked
    /// on, and is over when there is none left.
    pub open spec fn next_gap(self) -> (SweepView, Poll<()>) {
        if self.gaps.len() == 0 {
            self.done()
        } else {
            (
                SweepView { gaps: self.gaps.skip(1), stage: Stage::AwaitGap, ..self },
                Poll::Pending(
                    self.range(
                        to_u32_spec(self.gaps[0].0 as i32),
                        to_u32_spec(self.gaps[0].1 as i32),
                    ),
                ),
            )
        }
    }

    /// The first step looks for a way without an enumeration. With nothing
    /// kept at or above the threshold, one call on everything from the
    /// threshold upward will do, where the kernel has such a call. With a
    /// keep-list in ascending order, one call for each range between kept
    /// descriptors will do, where the kernel works on ranges; a kernel that
    /// must be asked first is asked. Otherwise the descriptors are enumerated.
    pub open spec fn shortcut(self) -> (SweepView, Poll<()>) {
        if self.closefrom() && self.max_keep < self.minfd {
            (
                SweepView { stage: Stage::AwaitLast, ..self },
                Poll::Pending(Request::CloseFrom { fd: self.minfd }),
            )
        } else if self.support() is Optimistic && self.cap() is Unavailable {
            self.proceed()
        } else if self.support() is Optimistic && self.max_keep < self.minfd {
            (
                SweepView { stage: Stage::AwaitAll, ..self },
                Poll::Pending(self.range(to_u32_spec(self.minfd), u32::MAX)),
            )
        } else if !(self.support() is Never) && self.sorted {
            if self.support() is Probed {
                match self.cap() {
                    Capability::Available => self.next_gap(),
                    Capability::Unavailable => self.proceed(),
                    Capability::Unknown => (
                        SweepView { stage: Stage::AwaitProbe, ..self },
                        Poll::Pending(Request::OsRelDate),
                    ),
                }
            } else {
                self.next_gap()
            }
        } else {
            self.proceed()
        }
    }

    /// What the sweep does with the descriptor `fd` that the enumeration has
    /// handed out. Above every kept descriptor nothing is kept any more:
    /// everything from `fd` upward goes in one call where the kernel has one,
    /// and descriptor by descriptor where it has none or the call fails. Up to
    /// the highest kept descriptor, `fd` is worked on unless it is kept.
    pub open spec fn on_fd(self, fd: i32) -> (SweepView, Poll<()>) {
        if self.rest {
            self.single(fd)
        } else if fd > self.max_keep {
            if self.closefrom() {
                let (iter, handle) = self.iter.release();
                match handle {
                    Some(dirfd) => (
                        SweepView { iter, stage: Stage::AwaitReleaseThenCloseFrom { fd }, ..self },
                        Poll::Pending(Request::CloseListing { dirfd }),
                    ),
                    None => (
                        SweepView { iter, stage: Stage::AwaitLast, ..self },
                        Poll::Pending(Request::CloseFrom { fd }),
                    ),
                }
            } else if self.may_try_range() {
                (
                    SweepView { stage: Stage::AwaitRest { fd }, ..self },
                    Poll::Pending(self.range(to_u32_spec(fd), u32::MAX)),
                )
            } else {
                (SweepView { rest: true, ..self }).single(fd)
            }
        } else if self.sorted {
            let keep = self.keep.skip(count_below(self.keep, fd));
            if keep.len() > 0 && keep[0] == fd {
                (SweepView { keep, ..self }).proceed()
            } else {
                (SweepView { keep, ..self }).single(fd)
            }
        } else {
            if self.keep.contains(fd) {
                self.proceed()
            } else {
                self.single(fd)
            }
        }
    }

    /// One step of the sweep on the reply to what it asked last.
    pub open spec fn resume(self, reply: Reply) -> (SweepView, Poll<()>) {
        match self.stage {
            Stage::Start => self.shortcut(),
            Stage::AwaitProbe => match check_has_close_range_spec(reply) {
                Capability::Available => self.with_cap(Capability::Available).next_gap(),
                _ => self.with_cap(Capability::Unavailable).proceed(),
            },
            Stage::AwaitAll => if succeeded(reply) {
                self.done()
            } else {
                self.downgraded().proceed()
            },
            Stage::AwaitGap => if succeeded(reply) {
                self.next_gap()
            } else {
                self.downgraded().proceed()
            },
            Stage::Enumerate => {
                let (iter, r) = self.iter.next(reply);
                let s = SweepView { iter, ..self };
                match r {
                    Poll::Pending(req) => (s, Poll::Pending(req)),
                    Poll::Ready(None) => s.done(),
                    Poll::Ready(Some(fd)) => s.on_fd(fd),
                }
            },
            Stage::AwaitRest { fd } => if succeeded(reply) {
                self.finish()
            } else {
                (SweepView { rest: true, ..self.downgraded() }).single(fd)
            },
            Stage::AwaitFlags { fd } => match reply {
                Reply::Value(flags) if i32::MIN <= flags <= i32::MAX => match set_cloexec_spec(
                    flags as i32,
                ) {
                    Some(marked) => (
                        SweepView { stage: Stage::AwaitApplied, ..self },
                        Poll::Pending(Request::SetFlags { fd, flags: marked }),
                    ),
                    None => self.proceed(),
                },
                _ => self.proceed(),
            },
            Stage::AwaitApplied => self.proceed(),
            Stage::AwaitReleaseThenCloseFrom { fd } => (
                SweepView { stage: Stage::AwaitLast, ..self },
                Poll::Pending(Request::CloseFrom { fd }),
            ),
            Stage::AwaitLast => self.done(),
            Stage::Done => (self, Poll::Ready(())),
        }
    }

    /// What the sweep has learnt of the kernel, with what its enumeration
    /// has learnt.
    pub open spec fn learnt(self) -> Sys {
        Sys { wsl1: self.iter.sys.wsl1, ..self.sys }
    }
}

/// A sweep over the descriptors of the process at or above a threshold: it
/// closes, or marks close-on-exec, each one that is not kept. It makes no
/// kernel call itself: each step names the call that the caller is to make
/// before the following step, until it reports that it is done.
pub struct Sweep<'a> {
    mode: Mode,
    minfd: i32,
    keep: &'a [i32],
    max_keep: i32,
    sorted: bool,
    gaps: Gaps<'a>,
    iter: FdIter,
    sys: Sys,
    rest: bool,
    stage: Stage,
}

impl<'a> View for Sweep<'a> {
    type V = SweepView;

    closed spec fn view(&self) -> SweepView {
        SweepView {
            mode: self.mode,
            minfd: self.minfd,
            keep: self.keep@,
            max_keep: self.max_keep,
            sorted: self.sorted,
            gaps: self.gaps.remaining(),
            iter: self.iter@,
            sys: self.sys,
            rest: self.rest,
            stage: self.stage,
        }
    }
}

/// Starts a sweep that closes every descriptor at or above `minfd` that is
/// not in `keep_fds`. The enumeration it may fall back on takes its options
/// from `itbuilder`.
pub fn close_fds<'a>(minfd: i32, keep_fds: KeepFds<'a>, itbuilder: FdIterBuilder, sys: Sys) -> (r:
    Sweep<'a>)
    ensures
        r@ == SweepView::fresh(Mode::Close, minfd, keep_fds@, itbuilder@, sys),
{
    Sweep::new(Mode::Close, minfd, keep_fds, itbuilder, sys)
}

impl<'a> Sweep<'a> {
    /// Starts a sweep; see [`SweepView::fresh`].
    pub fn new(mode: Mode, minfd: i32, keep_fds: KeepFds<'a>, itbuilder: FdIterBuilder, sys: Sys) -> (r:
        Self)
        ensures
            r@ == SweepView::fresh(mode, minfd, keep_fds@, itbuilder@, sys),
    {
        let mut low: i32 = if minfd < 0 {
            0
        } else {
            minfd
        };
        let fds: &'a [i32] = simplify_keep_fds(keep_fds.fds(), keep_fds.sorted(), &mut low);
        let mut builder: FdIterBuilder = itbuilder;
        builder.possible(true);
        if matches!(mode, Mode::Close) && sys.os.has_closefrom() {
            builder.threadsafe(true);
        }
        Sweep {
            mode,
            minfd: low,
            keep: fds,
            max_keep: keep_fds.max(),
            sorted: keep_fds.sorted(),
            gaps: Gaps::new(low, fds),
            iter: builder.iter_from(low, sys),
            sys,
            rest: false,
            stage: Stage::Start,
        }
    }

    /// Whether the sweep is over.
    pub fn is_done(&self) -> (r: bool)
        ensures
            r == (self@.stage is Done),
    {
        matches!(self.stage, Stage::Done)
    }

    /// What the sweep has learnt of the kernel, for the caller to keep for
    /// the operations to come.
    pub fn sys(&self) -> (r: Sys)
        ensures
            r == self@.learnt(),
    {
        let found: Sys = self.iter.sys();
        Sys { wsl1: found.wsl1, ..self.sys }
    }

    fn support(&self) -> (r: RangeSupport)
        ensures
            r == self@.support(),
    {
        match self.mode {
            Mode::Close => self.sys.os.close_range(),
            Mode::Cloexec => self.sys.os.cloexec_range(),
        }
    }

    fn cap(&self) -> (r: Capability)
        ensures
            r == self@.cap(),
    {
        match self.mode {
            Mode::Close => self.sys.close_range,
            Mode::Cloexec => self.sys.cloexec_range,
        }
    }

    fn set_cap(&mut self, cap: Capability)
        ensures
            final(self)@ == old(self)@.with_cap(cap),
    {
        match self.mode {
            Mode::Close => {
                self.sys.close_range = cap;
            },
            Mode::Cloexec => {
                self.sys.cloexec_range = cap;
            },
        }
    }

    fn downgrade(&mut self)
        ensures
            final(self)@ == old(self)@.downgraded(),
    {
        if matches!(self.support(), RangeSupport::Optimistic) {
            self.set_cap(Capability::Unavailable);
        }
    }

    fn closefrom(&self) -> (r: bool)
        ensures
            r == self@.closefrom(),
    {
        matches!(self.mode, Mode::Close) && self.sys.os.has_closefrom()
    }

    fn range(&self, low: u32, high: u32) -> (r: Request)
        ensures
            r == self@.range(low, high),
    {
        match self.mode {
            Mode::Close => Request::CloseRange { low, high },
            Mode::Cloexec => Request::CloexecRange { low, high },
        }
    }

    fn done(&mut self) -> (r: Poll<()>)
        ensures
            (final(self)@, r) == old(self)@.done(),
    {
        self.stage = Stage::Done;
        Poll::Ready(())
    }

    fn proceed(&mut self) -> (r: Poll<()>)
        ensures
            (final(self)@, r) == old(self)@.proceed(),
    {
        self.stage = Stage::Enumerate;
        Poll::Pending(Request::Proceed)
    }

    fn single(&mut self, fd: i32) -> (r: Poll<()>)
        ensures
            (final(self)@, r) == old(self)@.single(fd),
    {
        match self.mode {
            Mode::Close => {
                self.stage = Stage::AwaitApplied;
                Poll::Pending(Request::Close { fd })
            },
            Mode::Cloexec => {
                self.stage = Stage::AwaitFlags { fd };
                Poll::Pending(Request::GetFlags { fd })
            },
        }
    }

    fn finish(&mut self) -> (r: Poll<()>)
        ensures
            (final(self)@, r) == old(self)@.finish(),
    {
        match self.iter.release() {
            Some(dirfd) => {
                self.stage = Stage::AwaitLast;
                Poll::Pending(Request::CloseListing { dirfd })
            },
            None => self.done(),
        }
    }

    fn next_gap(&mut self) -> (r: Poll<()>)
        ensures
            (final(self)@, r) == old(self)@.next_gap(),
    {
        let gap: Option<(i32, i32)> = self.gaps.next();
        proof {
            if gap is None {
                assert(self.gaps.remaining() =~= old(self).gaps.remaining());
            }
        }
        match gap {
            None => self.done(),
            Some((low, high)) => {
                self.stage = Stage::AwaitGap;
                Poll::Pending(self.range(to_u32(low), to_u32(high)))
            },
        }
    }

    fn shortcut(&mut self) -> (r: Poll<()>)
        ensures
            (final(self)@, r) == old(self)@.shortcut(),
    {
        let support: RangeSupport = self.support();
        let cap: Capability = self.cap();
        if self.closefrom() && self.max_keep < self.minfd {
            self.stage = Stage::AwaitLast;
            Poll::Pending(Request::CloseFrom { fd: self.minfd })
        } else if matches!(support, RangeSupport::Optimistic) && matches!(
            cap,
            Capability::Unavailable
        ) {
            self.proceed()
        } else if matches!(support, RangeSupport::Optimistic) && self.max_keep < self.minfd {
            self.stage = Stage::AwaitAll;
            Poll::Pending(self.range(to_u32(self.minfd), u32::MAX))
        } else if !matches!(support, RangeSupport::Never) && self.sorted {
            if matches!(support, RangeSupport::Probed) {
                match cap {
                    Capability::Available => self.next_gap(),
                    Capability::Unavailable => self.proceed(),
                    Capability::Unknown => {
                        self.stage = Stage::AwaitProbe;
                        Poll::Pending(Request::OsRelDate)
                    },
                }
            } else {
                self.next_gap()
            }
        } else {
            self.proceed()
        }
    }

    fn on_fd(&mut self, fd: i32) -> (r: Poll<()>)
        ensures
            (final(self)@, r) == old(self)@.on_fd(fd),
    {
        if self.rest {
            self.single(fd)
        } else if fd > self.max_keep {
            if self.closefrom() {
                match self.iter.release() {
                    Some(dirfd) => {
                        self.stage = Stage::AwaitReleaseThenCloseFrom { fd };
                        Poll::Pending(Request::CloseListing { dirfd })
                    },
                    None => {
                        self.stage = Stage::AwaitLast;
                        Poll::Pending(Request::CloseFrom { fd })
                    },
                }
            } else if matches!(self.support(), RangeSupport::Optimistic) && !matches!(
                self.cap(),
                Capability::Unavailable
            ) {
                self.stage = Stage::AwaitRest { fd };
                Poll::Pending(self.range(to_u32(fd), u32::MAX))
            } else {
                self.rest = true;
                self.single(fd)
            }
        } else {
            if check_should_keep(&mut self.keep, fd, self.sorted) {
                self.proceed()
            } else {
                self.single(fd)
            }
        }
    }

    /// Takes one step of the sweep. `reply` is what the call returned that the
    /// step before asked for, and `Reply::Nothing` where it asked for none.
    /// The step asks for one more call, or reports that the sweep is done.
    pub fn resume(&mut self, reply: Reply) -> (r: Poll<()>)
        ensures
            (final(self)@, r) == old(self)@.resume(reply),
    {
        match self.stage {
            Stage::Start => self.shortcut(),
            Stage::AwaitProbe => {
                match check_has_close_range(reply) {
                    Capability::Available => {
                        self.set_cap(Capability::Available);
                        self.next_gap()
                    },
                    _ => {
                        self.set_cap(Capability::Unavailable);
                        self.proceed()
                    },
                }
            },
            Stage::AwaitAll => {
                if reply_succeeded(reply) {
                    self.done()
                } else {
                    self.downgrade();
                    self.proceed()
                }
            },
            Stage::AwaitGap => {
                if reply_succeeded(reply) {
                    self.next_gap()
                } else {
                    self.downgrade();
                    self.proceed()
                }
            },
            Stage::Enumerate => {
                match self.iter.next(reply) {
                    Poll::Pending(req) => Poll::Pending(req),
                    Poll::Ready(None) => self.done(),
                    Poll::Ready(Some(fd)) => self.on_fd(fd),
                }
            },
            Stage::AwaitRest { fd } => {
                if reply_succeeded(reply) {
                    self.finish()
                } else {
                    self.downgrade();
                    self.rest = true;
                    self.single(fd)
                }
            },
            Stage::AwaitFlags { fd } => match reply {
                Reply::Value(flags) if i32::MIN as i64 <= flags && flags <= i32::MAX as i64 => {
                    match set_cloexec(flags as i32) {
                        Some(marked) => {
                            self.stage = Stage::AwaitApplied;
                            Poll::Pending(Request::SetFlags { fd, flags: marked })
                        },
                        None => self.proceed(),
                    }
                },
                _ => self.proceed(),
            },
            Stage::AwaitApplied => self.proceed(),
            Stage::AwaitReleaseThenCloseFrom { fd } => {
                self.stage = Stage::AwaitLast;
                Poll::Pending(Request::CloseFrom { fd })
            },
            Stage::AwaitLast => self.done(),
            Stage::Done => Poll::Ready(()),
        }
    }
}

fn reply_succeeded(reply: Reply) -> (r: bool)
    ensures
        r == succeeded(reply),
{
    match reply {
        Reply::Value(v) => v == 0,
        _ => false,
    }
}

} // verus!
