//! The enumeration cursor: it hands out the descriptors at or above a
//! threshold in ascending order, from the kernel's listing where there is one
//! and by trying one number after another where there is none.

use crate::iterfds::dirfd::{lemma_listing_step, Awaiting, DirFdIter, DirFdIterView};
use crate::sys::{ListingPath, Poll, Reply, Request, Sys, FD_NUMBERS};
use crate::util::{is_fd_valid, is_wsl_1, is_wsl_1_spec};
use vstd::prelude::*;

verus! {

/// Where an enumeration stands between two steps.
#[derive(Clone, Copy, Debug, PartialEq, Eq, Structural)]
pub enum Phase {
    /// Nothing has been asked of the kernel yet.
    Start,
    /// The kernel's release name has been asked for.
    AwaitRelease,
    /// A listing directory is being opened; `second` tells that it is the
    /// second one tried.
    AwaitOpen { second: bool },
    /// The devices of the opened directory and of its parent are being
    /// compared.
    AwaitDevices { dirfd: i32 },
    /// A directory that cannot be trusted is being closed.
    AwaitCloseUntrusted,
    /// The descriptors come from the listing.
    Listing,
    /// The descriptors come from trying the numbers up to a bound.
    Scan,
    /// The highest open descriptor has been asked for.
    AwaitMaxFd,
    /// The number of open descriptors has been asked for.
    AwaitCount,
    /// The highest open descriptor is being searched for: `nfds` are open,
    /// `found` of them lie below `fd`, whose flags have been asked for.
    Counting { nfds: i32, fd: i32, found: i32 },
    /// The limit on open descriptors has been asked for.
    AwaitOpenMax,
    /// The flags of `fd` have been asked for, to see whether it is open.
    AwaitValid { fd: i32 },
}

/// The bound that a limit on open descriptors gives: one below the limit,
/// which is first brought between 1024 and 65536.
pub open spec fn clamp_open_max_spec(limit: i64) -> i32 {
    if limit < 1024 {
        1023
    } else if limit > 65536 {
        65535
    } else {
        (limit - 1) as i32
    }
}

/// See [`clamp_open_max_spec`].
#[verifier::when_used_as_spec(clamp_open_max_spec)]
pub fn clamp_open_max(limit: i64) -> (r: i32)
    ensures
        r == clamp_open_max_spec(limit),
{
    if limit < 1024 {
        1023
    } else if limit > 65536 {
        65535
    } else {
        (limit - 1) as i32
    }
}

/// A reply says that the descriptor asked about is open.
pub open spec fn says_open(reply: Reply) -> bool {
    reply matches Reply::Value(flags) && 0 <= flags <= i32::MAX
}

/// The state of an enumeration cursor, as contracts speak of it.
pub struct FdIterView {
    /// The threshold: no descriptor below it is handed out.
    pub minfd: i32,
    /// The lowest number that has not been passed yet.
    pub curfd: int,
    /// Whether numbers are handed out without a look at whether they are open.
    pub possible: bool,
    /// The bound of the scan, once it has been computed.
    pub maxfd: Option<i32>,
    /// Whether the bound may not be found by counting the open descriptors.
    pub skip_nfds: bool,
    /// Whether the kernel's listing may be used.
    pub allow_listing: bool,
    pub sys: Sys,
    pub listing: Option<DirFdIterView>,
    pub phase: Phase,
}

impl FdIterView {
    /// What holds of every cursor: the position lies between the threshold
    /// and one past the highest descriptor number, the threshold is not
    /// negative, the bound is a descriptor number or -1, and a search for the
    /// highest descriptor looks at fewer than twice as many numbers as there
    /// are open descriptors, of which there are fewer than a hundred. A number
    /// that is being asked about is the one passed last and lies within the
    /// bound, which is known only while the scan runs, and no number is asked
    /// about where numbers are handed out unseen, the bound and the release
    /// name are asked for only while they are unknown, and a listing is held
    /// only while the descriptors come from it, and hands out from the
    /// threshold on.
    pub open spec fn wf(self) -> bool {
        &&& 0 <= self.minfd <= self.curfd <= i32::MAX + 1
        &&& (self.maxfd matches Some(m) ==> m >= -1)
        &&& (self.phase matches Phase::Counting { nfds, fd, found } ==> 0 < nfds < 100 && 0 <= fd
            < 2 * nfds && 0 <= found < nfds)
        &&& (self.phase matches Phase::AwaitValid { fd } ==> self.minfd <= fd && self.curfd == fd + 1
            && !self.possible && (self.maxfd matches Some(m) && fd <= m))
        &&& (self.maxfd is Some ==> self.phase is Scan || self.phase is AwaitValid)
        &&& (self.phase is AwaitMaxFd || self.phase is AwaitCount || self.phase is Counting
            || self.phase is AwaitOpenMax ==> self.maxfd is None)
        &&& (self.phase is AwaitRelease ==> self.sys.wsl1 is None)
        &&& (self.listing matches Some(l) ==> l.minfd == self.minfd && self.phase is Listing
            && l.wf())
    }

    /// A cursor that has not taken a step.
    pub open spec fn fresh(minfd: i32, possible: bool, skip_nfds: bool, allow_listing: bool, sys: Sys) -> FdIterView {
        let low = if minfd < 0 {
            0i32
        } else {
            minfd
        };
        FdIterView {
            minfd: low,
            curfd: low as int,
            possible,
            maxfd: None,
            skip_nfds,
            allow_listing,
            sys,
            listing: None,
            phase: Phase::Start,
        }
    }

    /// Asks for the limit on open descriptors.
    pub open spec fn ask_open_max(self) -> (FdIterView, Poll<Option<i32>>) {
        (FdIterView { phase: Phase::AwaitOpenMax, ..self }, Poll::Pending(Request::OpenMax))
    }

    /// Asks how many descriptors are open, where the kernel tells and the
    /// cursor may count; otherwise asks for the limit.
    pub open spec fn get_nfds(self) -> (FdIterView, Poll<Option<i32>>) {
        if self.sys.os.spec_has_count_query() && !self.skip_nfds {
            (FdIterView { phase: Phase::AwaitCount, ..self }, Poll::Pending(Request::CountFds))
        } else {
            self.ask_open_max()
        }
    }

    /// Starts to find the bound of the scan by the cheapest means the kernel
    /// has.
    pub open spec fn get_maxfd_direct(self) -> (FdIterView, Poll<Option<i32>>) {
        if self.sys.os.spec_has_maxfd_query() {
            (FdIterView { phase: Phase::AwaitMaxFd, ..self }, Poll::Pending(Request::MaxFd))
        } else {
            self.get_nfds()
        }
    }

    /// One step of the scan: with the bound unknown it is asked for; past the
    /// bound the enumeration is over; otherwise the position moves up by one,
    /// and the number passed is handed out at once, or only asked about.
    pub open spec fn scan(self) -> (FdIterView, Poll<Option<i32>>) {
        let s = FdIterView { phase: Phase::Scan, listing: None, ..self };
        match s.maxfd {
            None => s.get_maxfd_direct(),
            Some(maxfd) => if s.curfd > maxfd {
                (s, Poll::Ready(None))
            } else if s.possible {
                (FdIterView { curfd: s.curfd + 1, ..s }, Poll::Ready(Some(s.curfd as i32)))
            } else {
                (
                    FdIterView {
                        curfd: s.curfd + 1,
                        phase: Phase::AwaitValid { fd: s.curfd as i32 },
                        ..s
                    },
                    Poll::Pending(Request::GetFlags { fd: s.curfd as i32 }),
                )
            },
        }
    }

    /// Fixes the bound and goes on with the scan.
    pub open spec fn with_bound(self, maxfd: i32) -> (FdIterView, Poll<Option<i32>>) {
        (FdIterView { maxfd: Some(maxfd), ..self }).scan()
    }

    /// Asks for the first or the second listing directory to be opened, and
    /// scans where the kernel has no such directory.
    pub open spec fn ask_open(self, second: bool) -> (FdIterView, Poll<Option<i32>>) {
        let path = if second {
            self.sys.os.spec_second_listing_path()
        } else {
            self.sys.os.spec_listing_path()
        };
        match path {
            Some(path) => (
                FdIterView { phase: Phase::AwaitOpen { second }, ..self },
                Poll::Pending(
                    Request::OpenListing {
                        path,
                        directory: self.sys.os.spec_listing_is_directory(),
                    },
                ),
            ),
            None => self.scan(),
        }
    }

    /// The first step: the listing is tried where it is allowed, the kernel
    /// has one, and the kernel is not known to be the flavour whose listing is
    /// wrong; where that is not known yet, it is asked first.
    pub open spec fn start(self) -> (FdIterView, Poll<Option<i32>>) {
        if self.allow_listing && self.sys.os.spec_listing_path() is Some {
            if self.sys.os.spec_listing_needs_release() {
                match self.sys.wsl1 {
                    Some(true) => self.scan(),
                    Some(false) => self.ask_open(false),
                    None => (
                        FdIterView { phase: Phase::AwaitRelease, ..self },
                        Poll::Pending(Request::KernelRelease),
                    ),
                }
            } else {
                self.ask_open(false)
            }
        } else {
            self.scan()
        }
    }

    /// One step of the listing strategy. A descriptor that the listing hands
    /// out moves the position just past it, so that a later scan neither
    /// repeats nor skips a number; a listing that fails gives way to the scan.
    pub open spec fn step_listing(self, reply: Reply) -> (FdIterView, Poll<Option<i32>>) {
        match self.listing {
            None => self.scan(),
            Some(l) => {
                let (l2, r) = l.next(reply);
                let s = FdIterView { listing: Some(l2), phase: Phase::Listing, ..self };
                match r {
                    Poll::Pending(req) => (s, Poll::Pending(req)),
                    Poll::Ready(Ok(Some(fd))) => (
                        FdIterView { curfd: fd + 1, ..s },
                        Poll::Ready(Some(fd)),
                    ),
                    Poll::Ready(Ok(None)) => (s, Poll::Ready(None)),
                    Poll::Ready(Err(_)) => s.scan(),
                }
            },
        }
    }

    /// Takes the opened directory into use and reads from it.
    pub open spec fn enter_listing(self, dirfd: i32) -> (FdIterView, Poll<Option<i32>>) {
        (FdIterView {
            listing: Some(
                DirFdIterView {
                    minfd: self.minfd,
                    dirfd,
                    layout: self.sys.dirent,
                    data: Seq::<u8>::empty(),
                    offset: 0,
                    awaiting: Awaiting::Nothing,
                },
            ),
            phase: Phase::Listing,
            ..self
        }).step_listing(Reply::Nothing)
    }

    /// One step of the search for the highest open descriptor where `nfds`
    /// are open: `found` of them lie below `fd`, and `reply` tells whether
    /// `fd` is one more. The descriptor that completes the count is the
    /// highest, and bounds the scan. The search is given up for the limit on
    /// open descriptors once twice as many numbers have been looked at as
    /// there are open descriptors: they lie too far apart, or one was closed
    /// in the meantime.
    pub open spec fn nfds_to_maxfd(self, nfds: i32, fd: i32, found: i32, reply: Reply) -> (
        FdIterView,
        Poll<Option<i32>>,
    ) {
        let seen = if says_open(reply) {
            found + 1
        } else {
            found as int
        };
        if seen >= nfds {
            self.with_bound(fd)
        } else if fd + 1 < 2 * nfds {
            (
                FdIterView {
                    phase: Phase::Counting { nfds, fd: (fd + 1) as i32, found: seen as i32 },
                    ..self
                },
                Poll::Pending(Request::GetFlags { fd: (fd + 1) as i32 }),
            )
        } else {
            self.ask_open_max()
        }
    }

    /// One step of the enumeration on the reply to what it asked last.
    pub open spec fn next(self, reply: Reply) -> (FdIterView, Poll<Option<i32>>) {
        match self.phase {
            Phase::Start => self.start(),
            Phase::AwaitRelease => {
                let wsl1 = match reply {
                    Reply::Data(_, bytes) => is_wsl_1_spec(bytes@),
                    _ => false,
                };
                let s = FdIterView { sys: Sys { wsl1: Some(wsl1), ..self.sys }, ..self };
                if wsl1 {
                    s.scan()
                } else {
                    s.ask_open(false)
                }
            },
            Phase::AwaitOpen { second } => match reply {
                Reply::Value(fd) if 0 <= fd <= i32::MAX => if self.sys.os.spec_listing_needs_device_check() {
                    (
                        FdIterView { phase: Phase::AwaitDevices { dirfd: fd as i32 }, ..self },
                        Poll::Pending(Request::CompareDevices { dirfd: fd as i32 }),
                    )
                } else {
                    self.enter_listing(fd as i32)
                },
                _ => if second {
                    self.scan()
                } else {
                    self.ask_open(true)
                },
            },
            Phase::AwaitDevices { dirfd } => match reply {
                Reply::Pair(dev, devfd) if dev != devfd && dirfd >= 0 => self.enter_listing(dirfd),
                _ => (
                    FdIterView { phase: Phase::AwaitCloseUntrusted, ..self },
                    Poll::Pending(Request::CloseListing { dirfd }),
                ),
            },
            Phase::AwaitCloseUntrusted => self.scan(),
            Phase::Listing => self.step_listing(reply),
            Phase::Scan => self.scan(),
            Phase::AwaitMaxFd => match reply {
                Reply::Pair(ret, _) if 0 <= ret <= i32::MAX => self.with_bound(ret as i32),
                Reply::Pair(ret, errno) if ret == -1 && errno == 0 => self.with_bound(-1i32),
                _ => self.get_nfds(),
            },
            Phase::AwaitCount => match reply {
                Reply::Value(n) if n == 0 => self.with_bound(-1i32),
                Reply::Value(n) if 0 < n < 100 => (
                    FdIterView { phase: Phase::Counting { nfds: n as i32, fd: 0, found: 0 }, ..self },
                    Poll::Pending(Request::GetFlags { fd: 0 }),
                ),
                _ => self.ask_open_max(),
            },
            Phase::Counting { nfds, fd, found } => self.nfds_to_maxfd(nfds, fd, found, reply),
            Phase::AwaitOpenMax => match reply {
                Reply::Value(limit) => self.with_bound(clamp_open_max_spec(limit)),
                _ => self.with_bound(1023),
            },
            Phase::AwaitValid { fd } => if says_open(reply) {
                (FdIterView { phase: Phase::Scan, ..self }, Poll::Ready(Some(fd)))
            } else {
                self.scan()
            },
        }
    }

    /// The bounds on how many descriptors are still to come: those of the
    /// listing while there is one; with the bound of the scan known, the count
    /// of the numbers up to it, and one more while a number that has been
    /// passed is still being asked about, which is exact where numbers are
    /// handed out unseen; and otherwise nothing better than the count of all
    /// numbers.
    pub open spec fn size_hint(self) -> (usize, Option<usize>) {
        match self.listing {
            Some(l) => l.size_hint(),
            None => match self.maxfd {
                Some(maxfd) => {
                    let diff = if maxfd + 1 > self.curfd {
                        (maxfd + 1 - self.curfd) as usize
                    } else {
                        0usize
                    };
                    (
                        if self.possible {
                            diff
                        } else {
                            0
                        },
                        Some(
                            if self.phase is AwaitValid {
                                (diff + 1) as usize
                            } else {
                                diff
                            },
                        ),
                    )
                },
                None => (0, Some(FD_NUMBERS)),
            },
        }
    }

    /// The exact count of what is still to come, where it is known without
    /// asking the kernel: in a scan that hands numbers out unseen and knows
    /// its bound.
    pub open spec fn count(self) -> Option<usize> {
        if self.listing is None && self.possible && self.maxfd is Some && !(self.phase is Start) {
            Some(self.size_hint().0)
        } else {
            None
        }
    }

    /// What giving up the listing comes to: the directory, where one is open
    /// and its closing has not been asked for, is to be closed by the caller,
    /// and the cursor holds it no longer. A cursor that was reading the
    /// listing is at its end; one that was scanning, or had not yet taken the
    /// directory into use, is left to scan.
    pub open spec fn release(self) -> (FdIterView, Option<i32>) {
        match self.phase {
            Phase::AwaitDevices { dirfd } => (
                FdIterView { phase: Phase::Listing, listing: None, ..self },
                Some(dirfd),
            ),
            _ => match self.listing {
                Some(l) => (
                    FdIterView { listing: Some(l.release().0), phase: Phase::Listing, ..self },
                    l.release().1,
                ),
                None => (self, None),
            },
        }
    }
}

/// What holds of a cursor whatever it is waiting for.
pub open spec fn base_ok(s: FdIterView) -> bool {
    &&& 0 <= s.minfd <= s.curfd <= i32::MAX + 1
    &&& (s.maxfd matches Some(m) ==> m >= -1)
    &&& (s.listing matches Some(l) ==> l.minfd == s.minfd && l.wf() && s.maxfd is None)
}

/// What a step from `s` to `t` with the result `r` keeps and promises: see
/// [`lemma_step`].
pub open spec fn step_ok(s: FdIterView, t: FdIterView, r: Poll<Option<i32>>) -> bool {
    &&& t.wf()
    &&& t.minfd == s.minfd
    &&& t.possible == s.possible
    &&& t.skip_nfds == s.skip_nfds
    &&& t.allow_listing == s.allow_listing
    &&& s.sys.may_follow(t.sys)
    &&& (s.maxfd is Some ==> t.maxfd == s.maxfd)
    &&& (r matches Poll::Ready(Some(fd)) ==> s.minfd <= fd < t.curfd)
}

proof fn lemma_scan_ok(s: FdIterView)
    requires
        base_ok(s),
    ensures
        step_ok(s, s.scan().0, s.scan().1),
{
}

proof fn lemma_with_bound_ok(s: FdIterView, maxfd: i32)
    requires
        base_ok(s),
        s.maxfd is None,
        maxfd >= -1,
    ensures
        step_ok(s, s.with_bound(maxfd).0, s.with_bound(maxfd).1),
{
    lemma_scan_ok(FdIterView { maxfd: Some(maxfd), listing: None, ..s });
}

proof fn lemma_ask_open_ok(s: FdIterView, second: bool)
    requires
        base_ok(s),
        s.listing is None,
        s.maxfd is None,
    ensures
        step_ok(s, s.ask_open(second).0, s.ask_open(second).1),
{
    lemma_scan_ok(s);
}

proof fn lemma_step_listing_ok(s: FdIterView, reply: Reply)
    requires
        base_ok(s),
    ensures
        step_ok(s, s.step_listing(reply).0, s.step_listing(reply).1),
{
    match s.listing {
        None => {
            lemma_scan_ok(s);
        },
        Some(l) => {
            lemma_listing_step(l, reply);
            let (l2, r) = l.next(reply);
            let t = FdIterView { listing: Some(l2), phase: Phase::Listing, ..s };
            lemma_scan_ok(t);
        },
    }
}

proof fn lemma_enter_listing_ok(s: FdIterView, dirfd: i32)
    requires
        base_ok(s),
        s.maxfd is None,
    ensures
        step_ok(s, s.enter_listing(dirfd).0, s.enter_listing(dirfd).1),
{
    let t = FdIterView {
        listing: Some(
            DirFdIterView {
                minfd: s.minfd,
                dirfd,
                layout: s.sys.dirent,
                data: Seq::<u8>::empty(),
                offset: 0,
                awaiting: Awaiting::Nothing,
            },
        ),
        phase: Phase::Listing,
        ..s
    };
    lemma_step_listing_ok(t, Reply::Nothing);
}

/// A step keeps a cursor well formed and keeps its threshold, its options and
/// its kernel family; a bound that is known stays what it is; what is known
/// of the kernel only grows; and a descriptor handed out is at or above the
/// threshold and below the position that the step leaves.
pub proof fn lemma_step(s: FdIterView, reply: Reply)
    requires
        s.wf(),
    ensures
        step_ok(s, s.next(reply).0, s.next(reply).1),
{
    match s.phase {
        Phase::Start => {
            lemma_scan_ok(s);
            lemma_ask_open_ok(s, false);
        },
        Phase::AwaitRelease => {
            let wsl1 = match reply {
                Reply::Data(_, bytes) => is_wsl_1_spec(bytes@),
                _ => false,
            };
            let t = FdIterView { sys: Sys { wsl1: Some(wsl1), ..s.sys }, ..s };
            lemma_scan_ok(t);
            lemma_ask_open_ok(t, false);
        },
        Phase::AwaitOpen { second } => {
            lemma_scan_ok(s);
            lemma_ask_open_ok(s, true);
            if let Reply::Value(fd) = reply {
                lemma_enter_listing_ok(s, fd as i32);
            }
        },
        Phase::AwaitDevices { dirfd } => {
            lemma_enter_listing_ok(s, dirfd);
        },
        Phase::AwaitCloseUntrusted => {
            lemma_scan_ok(s);
        },
        Phase::Listing => {
            lemma_step_listing_ok(s, reply);
        },
        Phase::Scan => {
            lemma_scan_ok(s);
        },
        Phase::AwaitMaxFd => {
            if let Reply::Pair(ret, errno) = reply {
                if 0 <= ret <= i32::MAX {
                    lemma_with_bound_ok(s, ret as i32);
                }
                lemma_with_bound_ok(s, -1i32);
            }
        },
        Phase::AwaitCount => {
            lemma_with_bound_ok(s, -1i32);
        },
        Phase::Counting { nfds, fd, found } => {
            lemma_with_bound_ok(s, fd);
        },
        Phase::AwaitOpenMax => {
            if let Reply::Value(limit) = reply {
                lemma_with_bound_ok(s, clamp_open_max_spec(limit));
            }
            lemma_with_bound_ok(s, 1023);
        },
        Phase::AwaitValid { fd } => {
            lemma_scan_ok(s);
        },
    }
}

/// An enumeration of the descriptors of the process at or above a threshold,
/// in ascending order. It makes no kernel call itself: each step either hands
/// out a descriptor, or says that none is left, or names the call that the
/// caller is to make before the following step.
pub struct FdIter {
    minfd: i32,
    curfd: i64,
    possible: bool,
    maxfd: Option<i32>,
    skip_nfds: bool,
    allow_listing: bool,
    sys: Sys,
    listing: Option<DirFdIter>,
    phase: Phase,
}

impl View for FdIter {
    type V = FdIterView;

    closed spec fn view(&self) -> FdIterView {
        FdIterView {
            minfd: self.minfd,
            curfd: self.curfd as int,
            possible: self.possible,
            maxfd: self.maxfd,
            skip_nfds: self.skip_nfds,
            allow_listing: self.allow_listing,
            sys: self.sys,
            listing: match self.listing {
                Some(l) => Some(l@),
                None => None,
            },
            phase: self.phase,
        }
    }
}

/// Starts an enumeration of the descriptors at or above `minfd`, which is
/// taken as 0 where it is negative. With `possible` the numbers of a scan are
/// handed out without a look at whether they are open; with `skip_nfds` the
/// bound of a scan is not found by counting the open descriptors, which other
/// threads can upset.
pub fn iter_fds(minfd: i32, possible: bool, skip_nfds: bool, sys: Sys) -> (r: FdIter)
    ensures
        r@ == FdIterView::fresh(minfd, possible, skip_nfds, true, sys),
{
    FdIter::new(minfd, possible, skip_nfds, true, sys)
}

impl FdIter {
    #[verifier::type_invariant]
    spec fn inv(self) -> bool {
        self@.wf()
    }

    /// Starts an enumeration; see [`iter_fds`]. With `allow_listing` unset the
    /// kernel's listing is never opened.
    pub fn new(minfd: i32, possible: bool, skip_nfds: bool, allow_listing: bool, sys: Sys) -> (r: Self)
        ensures
            r@ == FdIterView::fresh(minfd, possible, skip_nfds, allow_listing, sys),
    {
        let low: i32 = if minfd < 0 {
            0
        } else {
            minfd
        };
        FdIter {
            minfd: low,
            curfd: low as i64,
            possible,
            maxfd: None,
            skip_nfds,
            allow_listing,
            sys,
            listing: None,
            phase: Phase::Start,
        }
    }

    /// Whether the enumeration may hand out numbers that are not open
    /// descriptors, which the caller then has to check.
    pub fn is_possible_iter(&self) -> (r: bool)
        ensures
            r == self@.possible,
    {
        self.possible
    }

    /// What the enumeration knows of the kernel, which may be more than it was
    /// started with.
    pub fn sys(&self) -> (r: Sys)
        ensures
            r == self@.sys,
    {
        self.sys
    }

    fn ask_open_max(&mut self) -> (r: Poll<Option<i32>>)
        requires
            old(self).maxfd is None,
            old(self).listing is None,
        ensures
            (final(self)@, r) == old(self)@.ask_open_max(),
    {
        proof {
            use_type_invariant(&*self);
        }
        self.phase = Phase::AwaitOpenMax;
        Poll::Pending(Request::OpenMax)
    }

    fn get_nfds(&mut self) -> (r: Poll<Option<i32>>)
        requires
            old(self).maxfd is None,
            old(self).listing is None,
        ensures
            (final(self)@, r) == old(self)@.get_nfds(),
    {
        proof {
            use_type_invariant(&*self);
        }
        if self.sys.os.has_count_query() && !self.skip_nfds {
            self.phase = Phase::AwaitCount;
            Poll::Pending(Request::CountFds)
        } else {
            self.ask_open_max()
        }
    }

    fn get_maxfd_direct(&mut self) -> (r: Poll<Option<i32>>)
        requires
            old(self).maxfd is None,
            old(self).listing is None,
        ensures
            (final(self)@, r) == old(self)@.get_maxfd_direct(),
    {
        proof {
            use_type_invariant(&*self);
        }
        if self.sys.os.has_maxfd_query() {
            self.phase = Phase::AwaitMaxFd;
            Poll::Pending(Request::MaxFd)
        } else {
            self.get_nfds()
        }
    }

    fn scan(&mut self) -> (r: Poll<Option<i32>>)
        ensures
            (final(self)@, r) == old(self)@.scan(),
    {
        proof {
            use_type_invariant(&*self);
        }
        self.listing = None;
        self.phase = Phase::Scan;
        match self.maxfd {
            None => self.get_maxfd_direct(),
            Some(maxfd) => {
                if self.curfd > maxfd as i64 {
                    Poll::Ready(None)
                } else {
                    let fd: i32 = self.curfd as i32;
                    self.curfd = self.curfd + 1;
                    if self.possible {
                        Poll::Ready(Some(fd))
                    } else {
                        self.phase = Phase::AwaitValid { fd };
                        Poll::Pending(Request::GetFlags { fd })
                    }
                }
            },
        }
    }

    fn with_bound(&mut self, maxfd: i32) -> (r: Poll<Option<i32>>)
        requires
            maxfd >= -1,
            old(self).listing is None,
        ensures
            (final(self)@, r) == old(self)@.with_bound(maxfd),
    {
        proof {
            use_type_invariant(&*self);
        }
        self.phase = Phase::Scan;
        self.maxfd = Some(maxfd);
        self.scan()
    }

    fn nfds_to_maxfd(&mut self, nfds: i32, fd: i32, found: i32, reply: Reply) -> (r: Poll<
        Option<i32>,
    >)
        requires
            old(self).phase == (Phase::Counting { nfds, fd, found }),
        ensures
            (final(self)@, r) == old(self)@.nfds_to_maxfd(nfds, fd, found, reply),
    {
        proof {
            use_type_invariant(&*self);
        }
        let open: bool = match reply {
            Reply::Value(flags) if i32::MIN as i64 <= flags && flags <= i32::MAX as i64 => {
                is_fd_valid(flags as i32)
            },
            _ => false,
        };
        let seen: i32 = if open {
            found + 1
        } else {
            found
        };
        if seen >= nfds {
            self.with_bound(fd)
        } else if fd + 1 < 2 * nfds {
            self.phase = Phase::Counting { nfds, fd: fd + 1, found: seen };
            Poll::Pending(Request::GetFlags { fd: fd + 1 })
        } else {
            self.ask_open_max()
        }
    }

    fn ask_open(&mut self, second: bool) -> (r: Poll<Option<i32>>)
        requires
            old(self).listing is None,
            old(self).maxfd is None,
        ensures
            (final(self)@, r) == old(self)@.ask_open(second),
    {
        proof {
            use_type_invariant(&*self);
        }
        let path: Option<ListingPath> = if second {
            self.sys.os.second_listing_path()
        } else {
            self.sys.os.listing_path()
        };
        match path {
            Some(path) => {
                self.phase = Phase::AwaitOpen { second };
                Poll::Pending(
                    Request::OpenListing { path, directory: self.sys.os.listing_is_directory() },
                )
            },
            None => self.scan(),
        }
    }

    fn start(&mut self) -> (r: Poll<Option<i32>>)
        requires
            old(self).listing is None,
            old(self).maxfd is None,
        ensures
            (final(self)@, r) == old(self)@.start(),
    {
        proof {
            use_type_invariant(&*self);
        }
        if self.allow_listing && self.sys.os.listing_path().is_some() {
            if self.sys.os.listing_needs_release() {
                match self.sys.wsl1 {
                    Some(true) => self.scan(),
                    Some(false) => self.ask_open(false),
                    None => {
                        self.phase = Phase::AwaitRelease;
                        Poll::Pending(Request::KernelRelease)
                    },
                }
            } else {
                self.ask_open(false)
            }
        } else {
            self.scan()
        }
    }

    fn step_listing(&mut self, reply: Reply) -> (r: Poll<Option<i32>>)
        ensures
            (final(self)@, r) == old(self)@.step_listing(reply),
    {
        proof {
            use_type_invariant(&*self);
        }
        let mut listing: Option<DirFdIter> = None;
        core::mem::swap(&mut self.listing, &mut listing);
        let step: Option<Poll<Result<Option<i32>, ()>>> = match &mut listing {
            None => None,
            Some(l) => {
                proof {
                    lemma_listing_step(l@, reply);
                }
                Some(l.next(reply))
            },
        };
        if listing.is_some() {
            self.phase = Phase::Listing;
        }
        self.listing = listing;
        match step {
            None => self.scan(),
            Some(Poll::Pending(req)) => Poll::Pending(req),
            Some(Poll::Ready(Ok(Some(fd)))) => {
                self.curfd = fd as i64 + 1;
                Poll::Ready(Some(fd))
            },
            Some(Poll::Ready(Ok(None))) => Poll::Ready(None),
            Some(Poll::Ready(Err(_))) => self.scan(),
        }
    }

    fn enter_listing(&mut self, dirfd: i32) -> (r: Poll<Option<i32>>)
        requires
            dirfd >= 0,
            old(self).maxfd is None,
        ensures
            (final(self)@, r) == old(self)@.enter_listing(dirfd),
    {
        proof {
            use_type_invariant(&*self);
        }
        self.phase = Phase::Listing;
        self.listing = DirFdIter::open(self.minfd, dirfd, self.sys.dirent);
        self.step_listing(Reply::Nothing)
    }

    /// Takes one step of the enumeration. `reply` is what the call returned
    /// that the step before asked for, and `Reply::Nothing` where it asked for
    /// none. The step hands out the next descriptor, or `None` when there is
    /// none left, or asks for one more call.
    pub fn next(&mut self, reply: Reply) -> (r: Poll<Option<i32>>)
        ensures
            (final(self)@, r) == old(self)@.next(reply),
            old(self)@.wf(),
            step_ok(old(self)@, final(self)@, r),
    {
        proof {
            use_type_invariant(&*self);
        }
        proof {
            lemma_step(self@, reply);
        }
        let r = match self.phase {
            Phase::Start => self.start(),
            Phase::AwaitRelease => {
                let wsl1: bool = match reply {
                    Reply::Data(_, bytes) => is_wsl_1(bytes),
                    _ => false,
                };
                self.phase = Phase::Start;
                self.sys.wsl1 = Some(wsl1);
                if wsl1 {
                    self.scan()
                } else {
                    self.ask_open(false)
                }
            },
            Phase::AwaitOpen { second } => match reply {
                Reply::Value(fd) if 0 <= fd && fd <= i32::MAX as i64 => {
                    if self.sys.os.listing_needs_device_check() {
                        self.phase = Phase::AwaitDevices { dirfd: fd as i32 };
                        Poll::Pending(Request::CompareDevices { dirfd: fd as i32 })
                    } else {
                        self.enter_listing(fd as i32)
                    }
                },
                _ => {
                    if second {
                        self.scan()
                    } else {
                        self.ask_open(true)
                    }
                },
            },
            Phase::AwaitDevices { dirfd } => match reply {
                Reply::Pair(dev, devfd) if dev != devfd && dirfd >= 0 => self.enter_listing(dirfd),
                _ => {
                    self.phase = Phase::AwaitCloseUntrusted;
                    Poll::Pending(Request::CloseListing { dirfd })
                },
            },
            Phase::AwaitCloseUntrusted => self.scan(),
            Phase::Listing => self.step_listing(reply),
            Phase::Scan => self.scan(),
            Phase::AwaitMaxFd => match reply {
                Reply::Pair(ret, _) if 0 <= ret && ret <= i32::MAX as i64 => self.with_bound(
                    ret as i32,
                ),
                Reply::Pair(ret, errno) if ret == -1 && errno == 0 => self.with_bound(-1),
                _ => self.get_nfds(),
            },
            Phase::AwaitCount => match reply {
                Reply::Value(n) if n == 0 => self.with_bound(-1),
                Reply::Value(n) if 0 < n && n < 100 => {
                    self.phase = Phase::Counting { nfds: n as i32, fd: 0, found: 0 };
                    Poll::Pending(Request::GetFlags { fd: 0 })
                },
                _ => self.ask_open_max(),
            },
            Phase::Counting { nfds, fd, found } => self.nfds_to_maxfd(nfds, fd, found, reply),
            Phase::AwaitOpenMax => match reply {
                Reply::Value(limit) => self.with_bound(clamp_open_max(limit)),
                _ => self.with_bound(1023),
            },
            Phase::AwaitValid { fd } => {
                let open: bool = match reply {
                    Reply::Value(flags) if i32::MIN as i64 <= flags && flags <= i32::MAX as i64 => {
                        is_fd_valid(flags as i32)
                    },
                    _ => false,
                };
                if open {
                    self.phase = Phase::Scan;
                    Poll::Ready(Some(fd))
                } else {
                    self.scan()
                }
            },
        };
        proof {
            use_type_invariant(&*self);
        }
        r
    }

    /// Bounds on how many descriptors are still to come, in whatever state
    /// the enumeration is, also while it waits for a reply: at least the
    /// first, and at most the second.
    pub fn size_hint(&self) -> (r: (usize, Option<usize>))
        ensures
            r == self@.size_hint(),
    {
        proof {
            use_type_invariant(self);
        }
        match &self.listing {
            Some(l) => l.size_hint(),
            None => match self.maxfd {
                Some(maxfd) => {
                    let diff: usize = if maxfd as i64 + 1 > self.curfd {
                        (maxfd as i64 + 1 - self.curfd) as usize
                    } else {
                        0
                    };
                    (
                        if self.possible {
                            diff
                        } else {
                            0
                        },
                        Some(
                            if matches!(self.phase, Phase::AwaitValid { .. }) {
                                diff + 1
                            } else {
                                diff
                            },
                        ),
                    )
                },
                None => (0, Some(FD_NUMBERS)),
            },
        }
    }

    /// How many descriptors are still to come, where that is known without
    /// another kernel call; otherwise the caller counts by taking them.
    pub fn count(&self) -> (r: Option<usize>)
        ensures
            r == self@.count(),
    {
        proof {
            use_type_invariant(self);
        }
        if self.listing.is_none() && self.possible && self.maxfd.is_some() && !matches!(
            self.phase,
            Phase::Start
        ) {
            Some(self.size_hint().0)
        } else {
            None
        }
    }

    /// Gives up the listing, for a caller that lets go of the enumeration
    /// before its end. Where a listing directory is open and the caller has
    /// yet to close it, its descriptor comes back, and the caller closes it: a
    /// directory is closed once, here or at the end of the listing or when the
    /// listing fails.
    pub fn release(&mut self) -> (r: Option<i32>)
        ensures
            (final(self)@, r) == old(self)@.release(),
    {
        proof {
            use_type_invariant(&*self);
        }
        match self.phase {
            Phase::AwaitDevices { dirfd } => {
                self.phase = Phase::Listing;
                self.listing = None;
                Some(dirfd)
            },
            _ => {
                let mut listing: Option<DirFdIter> = None;
                core::mem::swap(&mut self.listing, &mut listing);
                let handle: Option<i32> = match &mut listing {
                    None => None,
                    Some(l) => l.release(),
                };
                if listing.is_some() {
                    self.phase = Phase::Listing;
                }
                self.listing = listing;
                handle
            },
        }
    }
}

} // verus!
