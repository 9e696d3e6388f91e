//! Closing, or marking close-on-exec, every descriptor at or above a
//! threshold that is not on a keep-list.

pub mod cloexec;
pub mod close;
pub mod laws;

use crate::closefds::close::{Mode, Sweep, SweepView};
use crate::iterfds::{FdIterBuilder, FdIterBuilderView};
use crate::sys::{Reply, Request, Sys};
use crate::util::{inspect_keep_fds, is_sorted, lemma_max_of, max_of};
use vstd::prelude::*;

verus! {

/// A keep-list with what is known of it, as contracts speak of it.
pub struct KeepFdsView {
    /// The descriptors to leave alone.
    pub fds: Seq<i32>,
    /// A number that none of them exceeds.
    pub max: i32,
    /// Whether the list is taken to be in ascending order.
    pub sorted: bool,
}

impl KeepFdsView {
    /// What a keep-list promises: none of its descriptors exceeds `max`, and
    /// it is in ascending order where it is taken to be.
    pub open spec fn wf(self) -> bool {
        &&& forall|i: int| 0 <= i < self.fds.len() ==> self.fds[i] <= self.max
        &&& (self.sorted ==> is_sorted(self.fds))
    }

    /// What looking through the list `fds` finds.
    pub open spec fn inspected(fds: Seq<i32>) -> KeepFdsView {
        KeepFdsView { fds, max: max_of(fds), sorted: is_sorted(fds) }
    }

    /// What is taken of the list `fds` on the word that it is ascending.
    pub open spec fn presorted(fds: Seq<i32>) -> KeepFdsView {
        KeepFdsView {
            fds,
            max: if fds.len() > 0 {
                fds.last()
            } else {
                -1i32
            },
            sorted: true,
        }
    }
}

/// A list that has been looked through keeps what a keep-list promises.
pub proof fn lemma_inspected_wf(fds: Seq<i32>)
    ensures
        KeepFdsView::inspected(fds).wf(),
{
    lemma_max_of(fds);
}

/// A keep-list together with its largest element and whether it is in
/// ascending order, both found once so that no later step has to look again.
#[derive(Clone, Copy, Debug)]
pub struct KeepFds<'a> {
    fds: &'a [i32],
    max: i32,
    sorted: bool,
}

impl<'a> View for KeepFds<'a> {
    type V = KeepFdsView;

    closed spec fn view(&self) -> KeepFdsView {
        KeepFdsView { fds: self.fds@, max: self.max, sorted: self.sorted }
    }
}

impl<'a> KeepFds<'a> {
    /// The list that keeps nothing.
    pub fn empty() -> (r: Self)
        ensures
            r@ == (KeepFdsView { fds: Seq::<i32>::empty(), max: -1i32, sorted: true }),
            r@.wf(),
    {
        let none: &'a [i32; 0] = &[];
        let fds: &'a [i32] = none.as_slice();
        proof {
            assert(fds@ =~= Seq::<i32>::empty());
        }
        KeepFds { fds, max: -1, sorted: true }
    }

    /// Takes a list in any order and finds out what there is to know of it.
    pub fn new(fds: &'a [i32]) -> (r: Self)
        ensures
            r@ == KeepFdsView::inspected(fds@),
            r@.wf(),
    {
        let (max, sorted) = inspect_keep_fds(fds);
        KeepFds { fds, max, sorted }
    }

    /// Takes a list on the caller's word that it is in ascending order. Where
    /// it is not, which descriptors end up kept is not defined; nothing worse
    /// happens.
    pub fn new_sorted(fds: &'a [i32]) -> (r: Self)
        ensures
            r@ == KeepFdsView::presorted(fds@),
            is_sorted(fds@) ==> r@.wf(),
    {
        let max: i32 = if fds.len() > 0 {
            fds[fds.len() - 1]
        } else {
            -1
        };
        KeepFds { fds, max, sorted: true }
    }

    /// The descriptors of the list.
    pub fn fds(&self) -> (r: &'a [i32])
        ensures
            r@ == self@.fds,
    {
        self.fds
    }

    /// A number that no descriptor of the list exceeds.
    pub fn max(&self) -> (r: i32)
        ensures
            r == self@.max,
    {
        self.max
    }

    /// Whether the list is taken to be in ascending order.
    pub fn sorted(&self) -> (r: bool)
        ensures
            r == self@.sorted,
    {
        self.sorted
    }
}

/// The options of a sweep, as contracts speak of them.
pub struct CloseFdsBuilderView {
    pub keep_fds: KeepFdsView,
    pub it: FdIterBuilderView,
}

/// Collects the options of a sweep that closes descriptors or marks them
/// close-on-exec, and starts it.
#[derive(Clone, Copy, Debug)]
pub struct CloseFdsBuilder<'a> {
    keep_fds: KeepFds<'a>,
    it: FdIterBuilder,
}

impl<'a> View for CloseFdsBuilder<'a> {
    type V = CloseFdsBuilderView;

    closed spec fn view(&self) -> CloseFdsBuilderView {
        CloseFdsBuilderView { keep_fds: self.keep_fds@, it: self.it@ }
    }
}

impl<'a> CloseFdsBuilder<'a> {
    /// The options as they stand at first: nothing is kept, and the
    /// enumeration has the options it has at first.
    pub fn new() -> (r: Self)
        ensures
            r@ == (CloseFdsBuilderView {
                keep_fds: KeepFdsView { fds: Seq::<i32>::empty(), max: -1i32, sorted: true },
                it: FdIterBuilderView {
                    possible: false,
                    threadsafe: false,
                    allow_filesystem: true,
                },
            }),
            r@.keep_fds.wf(),
    {
        CloseFdsBuilder { keep_fds: KeepFds::empty(), it: FdIterBuilder::new() }
    }

    /// Leaves the descriptors in `keep_fds` alone. A second call replaces the
    /// list of the first. The list is looked through once, here. Work is much
    /// faster with a list in ascending order; the list cannot be put in order
    /// here, since that would take memory.
    pub fn keep_fds(&mut self, keep_fds: &'a [i32]) -> (r: &mut Self)
        ensures
            r@ == (CloseFdsBuilderView {
                keep_fds: KeepFdsView::inspected(keep_fds@),
                ..old(self)@
            }),
            r@.keep_fds.wf(),
            *final(self) == *final(r),
    {
        self.keep_fds = KeepFds::new(keep_fds);
        self
    }

    /// As [`CloseFdsBuilder::keep_fds`], on the caller's word that the list is
    /// in ascending order. Where it is not, which descriptors end up kept is
    /// not defined.
    pub fn keep_fds_sorted(&mut self, keep_fds: &'a [i32]) -> (r: &mut Self)
        ensures
            r@ == (CloseFdsBuilderView {
                keep_fds: KeepFdsView::presorted(keep_fds@),
                ..old(self)@
            }),
            is_sorted(keep_fds@) ==> r@.keep_fds.wf(),
            *final(self) == *final(r),
    {
        self.keep_fds = KeepFds::new_sorted(keep_fds);
        self
    }

    /// Sets whether marking has to behave well while other threads open
    /// descriptors. Closing cannot be made to, and pays no heed.
    pub fn threadsafe(&mut self, threadsafe: bool) -> (r: &mut Self)
        ensures
            r@ == (CloseFdsBuilderView {
                it: FdIterBuilderView { threadsafe, ..old(self)@.it },
                ..old(self)@
            }),
            *final(self) == *final(r),
    {
        self.it.threadsafe(threadsafe);
        self
    }

    /// Sets whether the kernel's listing of descriptors may be read.
    pub fn allow_filesystem(&mut self, fs: bool) -> (r: &mut Self)
        ensures
            r@ == (CloseFdsBuilderView {
                it: FdIterBuilderView { allow_filesystem: fs, ..old(self)@.it },
                ..old(self)@
            }),
            *final(self) == *final(r),
    {
        self.it.allow_filesystem(fs);
        self
    }

    /// Starts a sweep that marks close-on-exec every descriptor at or above
    /// `minfd` that is not kept.
    pub fn cloexecfrom(&self, minfd: i32, sys: Sys) -> (r: Sweep<'a>)
        ensures
            r@ == SweepView::fresh(Mode::Cloexec, minfd, self@.keep_fds, self@.it, sys),
    {
        cloexec::set_fds_cloexec(if minfd < 0 {
            0
        } else {
            minfd
        }, self.keep_fds, self.it, sys)
    }

    /// Starts a sweep that closes every descriptor at or above `minfd` that is
    /// not kept.
    ///
    /// Closing descriptors that other parts of a program hold is not safe at
    /// any time: it is for the start of a program and for the moment before
    /// another program replaces it.
    pub fn closefrom(&self, minfd: i32, sys: Sys) -> (r: Sweep<'a>)
        ensures
            r@ == SweepView::fresh(Mode::Close, minfd, self@.keep_fds, self@.it, sys),
    {
        close::close_fds(if minfd < 0 {
            0
        } else {
            minfd
        }, self.keep_fds, self.it, sys)
    }
}

impl<'a> Default for CloseFdsBuilder<'a> {
    fn default() -> (r: Self)
        ensures
            r@ == (CloseFdsBuilderView {
                keep_fds: KeepFdsView { fds: Seq::<i32>::empty(), max: -1i32, sorted: true },
                it: FdIterBuilderView {
                    possible: false,
                    threadsafe: false,
                    allow_filesystem: true,
                },
            }),
    {
        Self::new()
    }
}

/// The enumeration options that a sweep has unless told otherwise.
pub open spec fn plain() -> FdIterBuilderView {
    FdIterBuilderView { possible: false, threadsafe: false, allow_filesystem: true }
}

/// Starts a sweep that marks close-on-exec every descriptor at or above
/// `minfd` that is not in `keep_fds`, which may be in any order.
pub fn set_fds_cloexec<'a>(minfd: i32, keep_fds: &'a [i32], sys: Sys) -> (r: Sweep<'a>)
    ensures
        r@ == SweepView::fresh(
            Mode::Cloexec,
            minfd,
            KeepFdsView::inspected(keep_fds@),
            plain(),
            sys,
        ),
{
    let mut builder = CloseFdsBuilder::new();
    builder.keep_fds(keep_fds);
    builder.cloexecfrom(minfd, sys)
}

/// As [`set_fds_cloexec`], and behaves well while other threads open
/// descriptors, which on some kernels costs speed.
pub fn set_fds_cloexec_threadsafe<'a>(minfd: i32, keep_fds: &'a [i32], sys: Sys) -> (r: Sweep<'a>)
    ensures
        r@ == SweepView::fresh(
            Mode::Cloexec,
            minfd,
            KeepFdsView::inspected(keep_fds@),
            FdIterBuilderView { threadsafe: true, ..plain() },
            sys,
        ),
{
    set_fds_cloexec_generic(minfd, keep_fds, true, sys)
}

/// Starts a sweep that marks close-on-exec every descriptor at or above
/// `minfd` that is not in `keep_fds`; `thread_safe` tells whether it has to
/// behave well while other threads open descriptors.
pub fn set_fds_cloexec_generic<'a>(
    minfd: i32,
    keep_fds: &'a [i32],
    thread_safe: bool,
    sys: Sys,
) -> (r: Sweep<'a>)
    ensures
        r@ == SweepView::fresh(
            Mode::Cloexec,
            minfd,
            KeepFdsView::inspected(keep_fds@),
            FdIterBuilderView { threadsafe: thread_safe, ..plain() },
            sys,
        ),
{
    let mut builder = CloseFdsBuilder::new();
    builder.keep_fds(keep_fds);
    builder.threadsafe(thread_safe);
    builder.cloexecfrom(minfd, sys)
}

/// Starts a sweep that closes every descriptor at or above `minfd` that is
/// not in `keep_fds`, which may be in any order.
///
/// See [`CloseFdsBuilder::closefrom`] on when closing is safe.
pub fn close_open_fds<'a>(minfd: i32, keep_fds: &'a [i32], sys: Sys) -> (r: Sweep<'a>)
    ensures
        r@ == SweepView::fresh(Mode::Close, minfd, KeepFdsView::inspected(keep_fds@), plain(), sys),
{
    let mut builder = CloseFdsBuilder::new();
    builder.keep_fds(keep_fds);
    builder.closefrom(minfd, sys)
}

/// The calls that find out ahead of time what the kernel can do in bulk: the
/// one for closing first, the one for marking second. Each is answered to
/// [`probed`].
pub fn probe(sys: Sys) -> (r: (Option<Request>, Option<Request>))
    ensures
        r == (close::probe_spec(sys), cloexec::probe_spec(sys)),
{
    (close::probe(sys), cloexec::probe(sys))
}

/// What is known of the kernel once the calls of [`probe`] have been
/// answered, `closing` being the reply to the first and `marking` the reply to
/// the second. What was known before stays known.
pub fn probed(sys: Sys, closing: Reply, marking: Reply) -> (r: Sys)
    ensures
        r == cloexec::probed_spec(close::probed_spec(sys, closing), marking),
        sys.may_follow(r),
{
    cloexec::probed(close::probed(sys, closing), marking)
}

} // verus!
