//! What holds of an enumeration over any number of steps.

use crate::iterfds::dirfd::{
    count_entries, lemma_listing_step, lemma_scan, record_fd, record_len, record_ok, scan_spec,
    Awaiting, DirFdIterView, Scan, LISTING_BUF_LEN,
};
use crate::iterfds::fditer::{
    base_ok, clamp_open_max_spec, lemma_step, says_open, FdIterView, Phase,
};
use crate::sys::{DirentLayout, Poll, Reply, Request, Sys};
use crate::util::is_wsl_1_spec;
use vstd::prelude::*;

verus! {

/// The records in `data` from `off` on go upward: those that name a
/// descriptor to hand out name one at or above `floor`, and each a higher one
/// than the one before.
pub open spec fn ascending_from(
    layout: DirentLayout,
    data: Seq<u8>,
    off: int,
    minfd: i32,
    dirfd: i32,
    floor: int,
) -> bool
    decreases data.len() - off,
{
    if off >= data.len() || !record_ok(layout, data, off) {
        true
    } else {
        let next = off + record_len(layout, data, off);
        match record_fd(layout, data, off) {
            Some(fd) if fd >= minfd && fd != dirfd => fd >= floor && ascending_from(
                layout,
                data,
                next,
                minfd,
                dirfd,
                fd + 1,
            ),
            _ => ascending_from(layout, data, next, minfd, dirfd, floor),
        }
    }
}

/// Where records go upward from `off`, the walk from `off` finds a descriptor
/// at or above `floor`, and the records after it go upward from just above
/// that descriptor; a walk that finds none leaves records that go upward.
pub proof fn lemma_ascending_scan(
    layout: DirentLayout,
    data: Seq<u8>,
    off: int,
    minfd: i32,
    dirfd: i32,
    floor: int,
)
    requires
        ascending_from(layout, data, off, minfd, dirfd, floor),
    ensures
        ({
            let (next, scan) = scan_spec(layout, data, off, minfd, dirfd);
            match scan {
                Scan::Entry(fd) => fd >= floor && ascending_from(
                    layout,
                    data,
                    next,
                    minfd,
                    dirfd,
                    fd + 1,
                ),
                _ => ascending_from(layout, data, next, minfd, dirfd, floor),
            }
        }),
    decreases data.len() - off,
{
    if off < data.len() && record_ok(layout, data, off) {
        let next = off + record_len(layout, data, off);
        match record_fd(layout, data, off) {
            Some(fd) if fd >= minfd && fd != dirfd => {},
            _ => {
                lemma_ascending_scan(layout, data, next, minfd, dirfd, floor);
            },
        }
    }
}

impl FdIterView {
    /// The lowest number that the cursor may still hand out.
    pub open spec fn floor(self) -> int {
        match self.phase {
            Phase::AwaitValid { fd } => fd as int,
            _ => self.curfd,
        }
    }

    /// The records that the listing holds go upward from the position.
    pub open spec fn ordered(self) -> bool {
        self.listing matches Some(l) ==> listing_ordered(l, self.curfd)
    }

    /// The reply does not break the order of the listing: where it brings
    /// records that the listing takes, they go upward from the position.
    pub open spec fn orderly(self, reply: Reply) -> bool {
        match (self.listing, reply) {
            (Some(l), Reply::Data(n, bytes)) => (self.phase is Listing && l.awaiting is Read && 0
                < n <= bytes@.len() && n <= LISTING_BUF_LEN) ==> ascending_from(
                l.layout,
                bytes@.take(n as int),
                0,
                l.minfd,
                l.dirfd,
                self.curfd,
            ),
            _ => true,
        }
    }

    /// Where the cursor stands after the steps that `replies` answer, and the
    /// descriptors that these steps hand out, in order.
    pub open spec fn run(self, replies: Seq<Reply>) -> (FdIterView, Seq<i32>)
        decreases replies.len(),
    {
        if replies.len() == 0 {
            (self, Seq::<i32>::empty())
        } else {
            let (s, fds) = self.run(replies.drop_last());
            let (t, r) = s.next(replies.last());
            match r {
                Poll::Ready(Some(fd)) => (t, fds.push(fd)),
                _ => (t, fds),
            }
        }
    }

    /// No reply of the run breaks the order of the listing.
    pub open spec fn orderly_run(self, replies: Seq<Reply>) -> bool {
        forall|i: int|
            0 <= i < replies.len() ==> (#[trigger] self.run(replies.take(i))).0.orderly(replies[i])
    }
}

/// From `low` on, the step that led to `t` with the result `r` went upward:
/// the listing of `t` is in order, no number below `low` may still come, and a
/// descriptor that was handed out is at or above `low` and below what may
/// still come.
pub open spec fn upward(low: int, t: FdIterView, r: Poll<Option<i32>>) -> bool {
    &&& t.ordered()
    &&& low <= t.floor()
    &&& (r matches Poll::Ready(Some(fd)) ==> low <= fd < t.floor())
}

proof fn lemma_scan_upward(s: FdIterView)
    requires
        base_ok(s),
    ensures
        upward(s.curfd, s.scan().0, s.scan().1),
{
}

proof fn lemma_ask_open_upward(s: FdIterView, second: bool)
    requires
        base_ok(s),
        s.ordered(),
        !(s.phase is AwaitValid),
    ensures
        upward(s.curfd, s.ask_open(second).0, s.ask_open(second).1),
{
    lemma_scan_upward(s);
}

proof fn lemma_with_bound_upward(s: FdIterView, maxfd: i32)
    requires
        base_ok(s),
        maxfd >= -1,
    ensures
        upward(s.curfd, s.with_bound(maxfd).0, s.with_bound(maxfd).1),
{
    lemma_scan_upward(FdIterView { maxfd: Some(maxfd), listing: None, ..s });
}

/// The records that an open listing cursor holds go upward from `floor`; of a
/// closed one, which reads no record again, nothing is asked.
pub open spec fn listing_ordered(l: DirFdIterView, floor: int) -> bool {
    l.dirfd >= 0 ==> ascending_from(l.layout, l.data, l.offset, l.minfd, l.dirfd, floor)
}

/// A step of a listing cursor whose records go upward from `floor`, on a
/// reply that brings only records that do so too: a descriptor that it hands
/// out is at or above `floor`, and the records it then holds go upward from
/// just above that descriptor, or from `floor` where it hands out none.
pub proof fn lemma_listing_upward(l: DirFdIterView, reply: Reply, floor: int)
    requires
        listing_ordered(l, floor),
        reply matches Reply::Data(n, bytes) ==> (l.awaiting is Read && 0 < n <= bytes@.len() && n
            <= LISTING_BUF_LEN) ==> ascending_from(
            l.layout,
            bytes@.take(n as int),
            0,
            l.minfd,
            l.dirfd,
            floor,
        ),
    ensures
        ({
            let (m, r) = l.next(reply);
            match r {
                Poll::Ready(Ok(Some(fd))) => fd >= floor && listing_ordered(m, fd + 1),
                _ => listing_ordered(m, floor),
            }
        }),
{
    match l.awaiting {
        Awaiting::Nothing => {
            lemma_resume_upward(l, floor);
        },
        Awaiting::Read => {
            match reply {
                Reply::Data(n, bytes) if 0 < n <= bytes@.len() && n <= LISTING_BUF_LEN => {
                    lemma_resume_upward(
                        DirFdIterView {
                            data: bytes@.take(n as int),
                            offset: 0,
                            awaiting: Awaiting::Nothing,
                            ..l
                        },
                        floor,
                    );
                },
                _ => {},
            }
        },
        _ => {},
    }
}

proof fn lemma_resume_upward(l: DirFdIterView, floor: int)
    requires
        listing_ordered(l, floor),
    ensures
        ({
            let (m, r) = l.resume();
            match r {
                Poll::Ready(Ok(Some(fd))) => fd >= floor && listing_ordered(m, fd + 1),
                _ => listing_ordered(m, floor),
            }
        }),
{
    if l.dirfd >= 0 {
        lemma_ascending_scan(l.layout, l.data, l.offset, l.minfd, l.dirfd, floor);
    }
}

proof fn lemma_step_listing_upward(s: FdIterView, reply: Reply)
    requires
        base_ok(s),
        s.ordered(),
        (FdIterView { phase: Phase::Listing, ..s }).orderly(reply),
    ensures
        upward(s.curfd, s.step_listing(reply).0, s.step_listing(reply).1),
{
    match s.listing {
        None => {
            lemma_scan_upward(s);
        },
        Some(l) => {
            lemma_listing_step(l, reply);
            lemma_listing_upward(l, reply, s.curfd);
            let (l2, r) = l.next(reply);
            let t = FdIterView { listing: Some(l2), phase: Phase::Listing, ..s };
            lemma_scan_upward(t);
        },
    }
}

proof fn lemma_enter_listing_upward(s: FdIterView, dirfd: i32)
    requires
        base_ok(s),
        s.maxfd is None,
    ensures
        upward(s.curfd, s.enter_listing(dirfd).0, s.enter_listing(dirfd).1),
{
    let t = FdIterView {
        listing: Some(
            DirFdIterView {
                minfd: s.minfd,
                dirfd,
                layout: s.sys.dirent,
                data: Seq::<u8>::empty(),
                offset: 0,
                awaiting: Awaiting::Nothing,
            },
        ),
        phase: Phase::Listing,
        ..s
    };
    lemma_step_listing_upward(t, Reply::Nothing);
}

/// One step of a cursor whose listing is in order: the order is kept, the
/// lowest number that may still come never falls, and a descriptor that is
/// handed out is at or above that number as it was and below it as it is.
pub proof fn lemma_step_ascending(s: FdIterView, reply: Reply)
    requires
        s.wf(),
        s.ordered(),
        s.orderly(reply),
    ensures
        s.next(reply).0.wf(),
        upward(s.floor(), s.next(reply).0, s.next(reply).1),
{
    lemma_step(s, reply);
    match s.phase {
        Phase::Start => {
            lemma_scan_upward(s);
            lemma_ask_open_upward(s, false);
        },
        Phase::AwaitRelease => {
            let wsl1 = match reply {
                Reply::Data(_, bytes) => is_wsl_1_spec(bytes@),
                _ => false,
            };
            let t = FdIterView { sys: Sys { wsl1: Some(wsl1), ..s.sys }, ..s };
            lemma_scan_upward(t);
            lemma_ask_open_upward(t, false);
        },
        Phase::AwaitOpen { second } => {
            lemma_scan_upward(s);
            lemma_ask_open_upward(s, true);
            if let Reply::Value(fd) = reply {
                if 0 <= fd <= i32::MAX {
                    lemma_enter_listing_upward(s, fd as i32);
                }
            }
        },
        Phase::AwaitDevices { dirfd } => {
            lemma_enter_listing_upward(s, dirfd);
        },
        Phase::AwaitCloseUntrusted => {
            lemma_scan_upward(s);
        },
        Phase::Listing => {
            lemma_step_listing_upward(s, reply);
        },
        Phase::Scan => {
            lemma_scan_upward(s);
        },
        Phase::AwaitMaxFd => {
            if let Reply::Pair(ret, errno) = reply {
                if 0 <= ret <= i32::MAX {
                    lemma_with_bound_upward(s, ret as i32);
                }
                lemma_with_bound_upward(s, -1i32);
            }
        },
        Phase::AwaitCount => {
            lemma_with_bound_upward(s, -1i32);
        },
        Phase::Counting { nfds, fd, found } => {
            lemma_with_bound_upward(s, fd);
        },
        Phase::AwaitOpenMax => {
            if let Reply::Value(limit) = reply {
                lemma_with_bound_upward(s, clamp_open_max_spec(limit));
            }
            lemma_with_bound_upward(s, 1023);
        },
        Phase::AwaitValid { fd } => {
            lemma_scan_upward(s);
        },
    }
}

/// An enumeration hands out its descriptors in strictly ascending order, none
/// of them twice and none below the lowest number that could come when it
/// started, which for a fresh enumeration is the threshold or 0, whichever is
/// higher. This holds as long as the kernel's listing, where one is read,
/// lists its descriptors in ascending order.
pub proof fn lemma_yields_ascending(s: FdIterView, replies: Seq<Reply>)
    requires
        s.wf(),
        s.ordered(),
        s.orderly_run(replies),
    ensures
        ({
            let (t, fds) = s.run(replies);
            &&& t.wf()
            &&& t.ordered()
            &&& s.floor() <= t.floor()
            &&& forall|i: int| 0 <= i < fds.len() ==> s.floor() <= #[trigger] fds[i] < t.floor()
            &&& forall|i: int, j: int| 0 <= i < j < fds.len() ==> fds[i] < fds[j]
        }),
    decreases replies.len(),
{
    if replies.len() > 0 {
        let before = replies.drop_last();
        assert forall|i: int| 0 <= i < before.len() implies (#[trigger] s.run(before.take(i))).0.orderly(
            before[i],
        ) by {
            assert(before.take(i) =~= replies.take(i));
        }
        lemma_yields_ascending(s, before);
        let (m, fds) = s.run(before);
        assert(replies.take(replies.len() - 1) =~= before);
        assert(s.run(replies.take(replies.len() - 1)).0.orderly(replies[replies.len() - 1]));
        lemma_step_ascending(m, replies.last());
    }
}

/// The bounds on what is still to come are both 0, and every step reports the
/// end and changes nothing.
pub open spec fn at_end(t: FdIterView, later: Reply) -> bool {
    &&& t.next(later) == (t, Poll::<Option<i32>>::Ready(None))
    &&& t.size_hint() == (0usize, Some(0usize))
}

proof fn lemma_scan_fused(s: FdIterView, later: Reply)
    requires
        base_ok(s),
        s.scan().1 == Poll::<Option<i32>>::Ready(None),
    ensures
        at_end(s.scan().0, later),
{
}

proof fn lemma_with_bound_fused(s: FdIterView, maxfd: i32, later: Reply)
    requires
        base_ok(s),
        maxfd >= -1,
        s.with_bound(maxfd).1 == Poll::<Option<i32>>::Ready(None),
    ensures
        at_end(s.with_bound(maxfd).0, later),
{
    lemma_scan_fused(FdIterView { maxfd: Some(maxfd), listing: None, ..s }, later);
}

proof fn lemma_ask_open_fused(s: FdIterView, second: bool, later: Reply)
    requires
        base_ok(s),
        s.ask_open(second).1 == Poll::<Option<i32>>::Ready(None),
    ensures
        at_end(s.ask_open(second).0, later),
{
    lemma_scan_fused(s, later);
}

proof fn lemma_step_listing_fused(s: FdIterView, reply: Reply, later: Reply)
    requires
        base_ok(s),
        s.step_listing(reply).1 == Poll::<Option<i32>>::Ready(None),
    ensures
        at_end(s.step_listing(reply).0, later),
{
    match s.listing {
        None => {
            lemma_scan_fused(s, later);
        },
        Some(l) => {
            lemma_listing_step(l, reply);
            let (l2, r) = l.next(reply);
            let t = FdIterView { listing: Some(l2), phase: Phase::Listing, ..s };
            match r {
                Poll::Ready(Err(_)) => {
                    lemma_scan_fused(t, later);
                },
                Poll::Ready(Ok(None)) => {
                    assert(l2.dirfd < 0 && l2.awaiting is Nothing) by {
                        lemma_scan(l.layout, l.data, l.offset, l.minfd, l.dirfd);
                        if let Reply::Data(n, bytes) = reply {
                            lemma_scan(l.layout, bytes@.take(n as int), 0, l.minfd, l.dirfd);
                        }
                    }
                    assert(l2.next(later) == (l2, Poll::<Result<Option<i32>, ()>>::Ready(Ok(None))));
                },
                _ => {},
            }
        },
    }
}

proof fn lemma_enter_listing_fused(s: FdIterView, dirfd: i32, later: Reply)
    requires
        base_ok(s),
        s.maxfd is None,
        s.enter_listing(dirfd).1 == Poll::<Option<i32>>::Ready(None),
    ensures
        at_end(s.enter_listing(dirfd).0, later),
{
    let t = FdIterView {
        listing: Some(
            DirFdIterView {
                minfd: s.minfd,
                dirfd,
                layout: s.sys.dirent,
                data: Seq::<u8>::empty(),
                offset: 0,
                awaiting: Awaiting::Nothing,
            },
        ),
        phase: Phase::Listing,
        ..s
    };
    lemma_step_listing_fused(t, Reply::Nothing, later);
}

/// An enumeration that has reported its end stays at its end: every later
/// step reports the end again and changes nothing, whatever the reply, and
/// the bounds on what is still to come are both 0.
pub proof fn lemma_fused(s: FdIterView, reply: Reply, later: Reply)
    requires
        s.wf(),
        s.next(reply).1 == Poll::<Option<i32>>::Ready(None),
    ensures
        at_end(s.next(reply).0, later),
{
    match s.phase {
        Phase::Start => {
            if s.start().1 == Poll::<Option<i32>>::Ready(None) {
                if s.scan().1 == Poll::<Option<i32>>::Ready(None) {
                    lemma_scan_fused(s, later);
                }
                if s.ask_open(false).1 == Poll::<Option<i32>>::Ready(None) {
                    lemma_ask_open_fused(s, false, later);
                }
            }
        },
        Phase::AwaitRelease => {
            let wsl1 = match reply {
                Reply::Data(_, bytes) => is_wsl_1_spec(bytes@),
                _ => false,
            };
            let t = FdIterView { sys: Sys { wsl1: Some(wsl1), ..s.sys }, ..s };
            if wsl1 {
                lemma_scan_fused(t, later);
            } else {
                lemma_ask_open_fused(t, false, later);
            }
        },
        Phase::AwaitOpen { second } => {
            match reply {
                Reply::Value(fd) if 0 <= fd <= i32::MAX => {
                    if !s.sys.os.spec_listing_needs_device_check() {
                        lemma_enter_listing_fused(s, fd as i32, later);
                    }
                },
                _ => {
                    if second {
                        lemma_scan_fused(s, later);
                    } else {
                        lemma_ask_open_fused(s, true, later);
                    }
                },
            }
        },
        Phase::AwaitDevices { dirfd } => {
            match reply {
                Reply::Pair(dev, devfd) if dev != devfd && dirfd >= 0 => {
                    lemma_enter_listing_fused(s, dirfd, later);
                },
                _ => {},
            }
        },
        Phase::AwaitCloseUntrusted => {
            lemma_scan_fused(s, later);
        },
        Phase::Listing => {
            lemma_step_listing_fused(s, reply, later);
        },
        Phase::Scan => {
            lemma_scan_fused(s, later);
        },
        Phase::AwaitMaxFd => {
            match reply {
                Reply::Pair(ret, _) if 0 <= ret <= i32::MAX => {
                    lemma_with_bound_fused(s, ret as i32, later);
                },
                Reply::Pair(ret, errno) if ret == -1 && errno == 0 => {
                    lemma_with_bound_fused(s, -1i32, later);
                },
                _ => {},
            }
        },
        Phase::AwaitCount => {
            match reply {
                Reply::Value(n) if n == 0 => {
                    lemma_with_bound_fused(s, -1i32, later);
                },
                _ => {},
            }
        },
        Phase::Counting { nfds, fd, found } => {
            if s.next(reply) == s.with_bound(fd) {
                lemma_with_bound_fused(s, fd, later);
            }
        },
        Phase::AwaitOpenMax => {
            match reply {
                Reply::Value(limit) => {
                    lemma_with_bound_fused(s, clamp_open_max_spec(limit), later);
                },
                _ => {
                    lemma_with_bound_fused(s, 1023, later);
                },
            }
        },
        Phase::AwaitValid { fd } => {
            if !says_open(reply) {
                lemma_scan_fused(s, later);
            }
        },
    }
}

/// The kernel calls that an enumeration asks for: none of them closes or
/// marks a descriptor of the process, but for the listing directory that the
/// enumeration opened itself.
pub open spec fn reads_only(req: Request) -> bool {
    req is KernelRelease || req is OpenListing || req is CompareDevices || req is ReadListing
        || req is CloseListing || req is MaxFd || req is CountFds || req is OpenMax
        || req is GetFlags
}

/// Whatever an enumeration asks for is one of the calls of [`reads_only`].
pub proof fn lemma_requests(s: FdIterView, reply: Reply)
    ensures
        s.next(reply).1 matches Poll::Pending(req) ==> reads_only(req),
{
    if let Some(l) = s.listing {
        lemma_listing_requests(l, reply);
    }
    let fresh = DirFdIterView {
        minfd: s.minfd,
        dirfd: 0,
        layout: s.sys.dirent,
        data: Seq::<u8>::empty(),
        offset: 0,
        awaiting: Awaiting::Nothing,
    };
    if let Phase::AwaitOpen { second } = s.phase {
        if let Reply::Value(fd) = reply {
            lemma_listing_requests(
                DirFdIterView { dirfd: #[verifier::truncate] (fd as i32), ..fresh },
                Reply::Nothing,
            );
        }
    }
    if let Phase::AwaitDevices { dirfd } = s.phase {
        lemma_listing_requests(DirFdIterView { dirfd, ..fresh }, Reply::Nothing);
    }
}

proof fn lemma_listing_requests(l: DirFdIterView, reply: Reply)
    ensures
        l.next(reply).1 matches Poll::Pending(req) ==> req is ReadListing || req is CloseListing,
{
}

impl FdIterView {
    /// The listing directory that the cursor holds open and has not asked to
    /// have closed.
    pub open spec fn handle(self) -> Option<i32> {
        match self.phase {
            Phase::AwaitDevices { dirfd } => Some(dirfd),
            _ => match self.listing {
                Some(l) => l.release().1,
                None => None,
            },
        }
    }
}

/// What a step does to the directory that an enumeration holds.
pub open spec fn handled(s: FdIterView, reply: Reply, t: FdIterView, r: Poll<Option<i32>>) -> bool {
    match r {
        Poll::Pending(Request::CloseListing { dirfd }) => s.handle() == Some(dirfd) && t.handle()
            is None,
        Poll::Pending(Request::OpenListing { path, directory }) => s.handle() is None && t.handle()
            is None,
        Poll::Ready(None) => s.handle() is None && t.handle() is None,
        _ => t.handle() == s.handle() || (s.handle() is None && s.phase is AwaitOpen && (
        reply matches Reply::Value(fd) && 0 <= fd <= i32::MAX && t.handle() == Some(fd as i32))),
    }
}

proof fn lemma_listing_handled(l: DirFdIterView, reply: Reply)
    requires
        l.wf(),
    ensures
        ({
            let (m, r) = l.next(reply);
            match r {
                Poll::Pending(Request::CloseListing { dirfd }) => l.release().1 == Some(dirfd)
                    && m.release().1 is None,
                Poll::Pending(Request::ReadListing { dirfd, len }) => m.release().1
                    == l.release().1,
                Poll::Pending(_) => false,
                Poll::Ready(Ok(Some(fd))) => m.release().1 == l.release().1,
                Poll::Ready(_) => l.release().1 is None && m.release().1 is None,
            }
        }),
{
}

proof fn lemma_step_listing_handled(s: FdIterView, reply: Reply)
    requires
        base_ok(s),
        s.phase is Listing,
    ensures
        handled(s, reply, s.step_listing(reply).0, s.step_listing(reply).1),
{
    if let Some(l) = s.listing {
        lemma_listing_handled(l, reply);
    }
}

/// The listing directory is closed once. A step asks for a directory to be
/// opened only while the enumeration holds none, takes the one that is opened
/// into its hold, asks for none to be closed but the one it holds, which it
/// then holds no longer, and otherwise leaves its hold as it is; and it
/// reports its end only when it holds none.
pub proof fn lemma_handle(s: FdIterView, reply: Reply)
    requires
        s.wf(),
    ensures
        handled(s, reply, s.next(reply).0, s.next(reply).1),
{
    let fresh = DirFdIterView {
        minfd: s.minfd,
        dirfd: 0,
        layout: s.sys.dirent,
        data: Seq::<u8>::empty(),
        offset: 0,
        awaiting: Awaiting::Nothing,
    };
    match s.phase {
        Phase::Listing => {
            lemma_step_listing_handled(s, reply);
        },
        Phase::AwaitOpen { second } => {
            if let Reply::Value(fd) = reply {
                if 0 <= fd <= i32::MAX {
                    lemma_listing_handled(DirFdIterView { dirfd: fd as i32, ..fresh }, Reply::Nothing);
                }
            }
        },
        Phase::AwaitDevices { dirfd } => {
            if dirfd >= 0 {
                lemma_listing_handled(DirFdIterView { dirfd, ..fresh }, Reply::Nothing);
            }
        },
        _ => {},
    }
}

/// Giving an enumeration up hands back the directory that it holds, and
/// leaves it holding none.
pub proof fn lemma_release_handle(s: FdIterView)
    requires
        s.wf(),
    ensures
        s.release().1 == s.handle(),
        s.release().0.handle() is None,
        s.release().0.wf(),
        s.release().0.sys == s.sys,
{
}

/// A walk that finds a record to hand out leaves one record fewer to count,
/// and a walk that finds none had none to count. No more records are counted
/// than there are bytes.
pub proof fn lemma_count_scan(layout: DirentLayout, data: Seq<u8>, off: int, minfd: i32, dirfd: i32)
    ensures
        ({
            let (next, scan) = scan_spec(layout, data, off, minfd, dirfd);
            match scan {
                Scan::Entry(_) => count_entries(layout, data, off, minfd, dirfd) == count_entries(
                    layout,
                    data,
                    next,
                    minfd,
                    dirfd,
                ) + 1,
                _ => count_entries(layout, data, off, minfd, dirfd) == 0,
            }
        }),
        count_entries(layout, data, off, minfd, dirfd) <= (if off < data.len() {
            data.len() - off
        } else {
            0
        }),
    decreases data.len() - off,
{
    if off < data.len() && record_ok(layout, data, off) {
        let next = off + record_len(layout, data, off);
        lemma_count_scan(layout, data, next, minfd, dirfd);
    }
}

/// The lower bound of the size hint counts descriptors that come for sure:
/// while it is above 0, the step hands out a descriptor without asking for
/// anything, and leaves a lower bound that is one less.
pub proof fn lemma_size_hint_lower(s: FdIterView, reply: Reply)
    requires
        s.wf(),
        s.size_hint().0 > 0,
    ensures
        s.next(reply).1 is Ready,
        s.next(reply).1->Ready_0 is Some,
        s.next(reply).0.size_hint().0 == s.size_hint().0 - 1,
{
    if let Some(l) = s.listing {
        lemma_count_scan(l.layout, l.data, l.offset, l.minfd, l.dirfd);
        lemma_scan(l.layout, l.data, l.offset, l.minfd, l.dirfd);
        let (next, scan) = scan_spec(l.layout, l.data, l.offset, l.minfd, l.dirfd);
        lemma_count_scan(l.layout, l.data, next, l.minfd, l.dirfd);
    }
}

proof fn lemma_lower_run(s: FdIterView, replies: Seq<Reply>)
    requires
        s.wf(),
    ensures
        s.run(replies).0.wf(),
        s.size_hint().0 <= s.run(replies).1.len() + s.run(replies).0.size_hint().0,
    decreases replies.len(),
{
    if replies.len() > 0 {
        lemma_lower_run(s, replies.drop_last());
        let m = s.run(replies.drop_last()).0;
        lemma_step(m, replies.last());
        if m.size_hint().0 > 0 {
            lemma_size_hint_lower(m, replies.last());
        }
    }
}

/// The lower bound of the size hint holds: from any state, an enumeration
/// that is taken to its end hands out at least as many descriptors as the
/// bound says.
pub proof fn lemma_size_hint_lower_holds(s: FdIterView, replies: Seq<Reply>, last: Reply)
    requires
        s.wf(),
        s.run(replies).0.next(last).1 == Poll::<Option<i32>>::Ready(None),
    ensures
        s.size_hint().0 <= s.run(replies).1.len(),
{
    lemma_lower_run(s, replies);
    let m = s.run(replies).0;
    if m.size_hint().0 > 0 {
        lemma_size_hint_lower(m, last);
    }
}

/// The two bounds of the size hint agree: the lower one is not above the
/// upper one.
pub proof fn lemma_size_hint_sane(s: FdIterView)
    requires
        s.wf(),
    ensures
        s.size_hint().0 <= upper(s),
{
    if let Some(l) = s.listing {
        lemma_count_scan(l.layout, l.data, l.offset, l.minfd, l.dirfd);
    }
}

/// The upper bound of the size hint, as a number.
pub open spec fn upper(s: FdIterView) -> int {
    match s.size_hint().1 {
        Some(h) => h as int,
        None => 0,
    }
}

/// In a scan whose bound is known the upper bound of the size hint tightens:
/// a step that hands out a descriptor lowers it by one at least, and no step
/// raises it. This holds at every step, also while a number is being asked
/// about.
pub proof fn lemma_size_hint_upper(s: FdIterView, reply: Reply)
    requires
        s.wf(),
        s.maxfd is Some,
    ensures
        s.next(reply).0.wf(),
        s.next(reply).0.maxfd is Some,
        upper(s.next(reply).0) + (if s.next(reply).1 matches Poll::Ready(Some(_)) {
            1int
        } else {
            0int
        }) <= upper(s),
{
    lemma_step(s, reply);
}

proof fn lemma_scan_run_upper(s: FdIterView, replies: Seq<Reply>)
    requires
        s.wf(),
        s.maxfd is Some,
    ensures
        s.run(replies).0.wf(),
        s.run(replies).0.maxfd is Some,
        s.run(replies).1.len() + upper(s.run(replies).0) <= upper(s),
    decreases replies.len(),
{
    if replies.len() > 0 {
        lemma_scan_run_upper(s, replies.drop_last());
        lemma_size_hint_upper(s.run(replies.drop_last()).0, replies.last());
    }
}

proof fn lemma_closed_run(s: FdIterView, replies: Seq<Reply>)
    requires
        s.wf(),
        s.listing matches Some(l) && l.dirfd < 0,
    ensures
        s.run(replies) == (s, Seq::<i32>::empty()),
    decreases replies.len(),
{
    if replies.len() > 0 {
        lemma_closed_run(s, replies.drop_last());
        let l = s.listing->Some_0;
        assert(l.next(replies.last()) == (l, Poll::<Result<Option<i32>, ()>>::Ready(Ok(None))));
        assert(s.next(replies.last()) == (s, Poll::<Option<i32>>::Ready(None)));
    }
}

/// A sequence of numbers that go strictly upward from `low` and stay below
/// `high` is no longer than there are numbers from `low` to `high`.
pub proof fn lemma_ascending_len(fds: Seq<i32>, low: int, high: int)
    requires
        forall|i: int| 0 <= i < fds.len() ==> low <= #[trigger] fds[i] < high,
        forall|i: int, j: int| 0 <= i < j < fds.len() ==> fds[i] < fds[j],
    ensures
        fds.len() > 0 ==> fds.len() <= high - low,
        fds.len() > 0 ==> low + fds.len() - 1 <= fds.last(),
    decreases fds.len(),
{
    if fds.len() > 1 {
        let before = fds.drop_last();
        assert forall|i: int| 0 <= i < before.len() implies low <= #[trigger] before[i] < high by {
            assert(before[i] == fds[i]);
        }
        assert forall|i: int, j: int| 0 <= i < j < before.len() implies before[i] < before[j] by {
            assert(before[i] == fds[i] && before[j] == fds[j]);
        }
        lemma_ascending_len(before, low, high);
        assert(before.last() == fds[fds.len() - 2]);
        assert(fds[fds.len() - 2] < fds[fds.len() - 1]);
    } else if fds.len() == 1 {
        assert(low <= fds[0] < high);
    }
}

/// The upper bound of the size hint holds: from any state, however many steps
/// an enumeration takes, it hands out no more descriptors than the bound
/// says, as long as the kernel's listing, where one is read, lists in
/// ascending order.
pub proof fn lemma_size_hint_holds(s: FdIterView, replies: Seq<Reply>)
    requires
        s.wf(),
        s.ordered(),
        s.orderly_run(replies),
    ensures
        s.run(replies).1.len() <= upper(s),
{
    if s.maxfd is Some {
        lemma_scan_run_upper(s, replies);
    } else if s.listing matches Some(l) && l.dirfd < 0 {
        lemma_closed_run(s, replies);
    } else {
        lemma_yields_ascending(s, replies);
        let (t, fds) = s.run(replies);
        lemma_ascending_len(fds, s.floor(), t.floor());
    }
}

/// An enumeration under way: its cursor, the lowest number it has not
/// passed, the descriptors it has handed out, and whether its last step
/// reported the end.
pub struct Walk {
    pub s: FdIterView,
    pub frontier: int,
    pub fds: Seq<i32>,
    pub ended: bool,
}

/// The sequence `fds` holds the number `x`.
pub open spec fn seen(fds: Seq<i32>, x: int) -> bool {
    exists|i: int| 0 <= i < fds.len() && fds[i] == x
}

impl Walk {
    /// An enumeration about to take its first step.
    pub open spec fn start(s: FdIterView) -> Walk {
        Walk { s, frontier: s.floor(), fds: Seq::<i32>::empty(), ended: false }
    }

    /// The enumeration tells the truth, at the step that `reply` answers, of
    /// a process whose open descriptors are `live`: what it hands out is the
    /// lowest open descriptor that it has not passed, and it reports the end
    /// only when no open descriptor is left.
    pub open spec fn truthful(self, live: Set<int>, reply: Reply) -> bool {
        match self.s.next(reply).1 {
            Poll::Ready(Some(fd)) => self.frontier <= fd && live.contains(fd as int) && forall|
                x: int,
            | self.frontier <= x < fd ==> !live.contains(x),
            Poll::Ready(None) => forall|x: int| self.frontier <= x ==> !live.contains(x),
            Poll::Pending(_) => true,
        }
    }

    /// The step that `reply` answers.
    pub open spec fn step(self, reply: Reply) -> Walk {
        let (t, r) = self.s.next(reply);
        match r {
            Poll::Ready(Some(fd)) => Walk {
                s: t,
                frontier: fd + 1,
                fds: self.fds.push(fd),
                ended: false,
            },
            Poll::Ready(None) => Walk { s: t, ended: true, ..self },
            Poll::Pending(_) => Walk { s: t, ended: false, ..self },
        }
    }

    /// The steps that `replies` answer, one after the other.
    pub open spec fn run(self, replies: Seq<Reply>) -> Walk
        decreases replies.len(),
    {
        if replies.len() == 0 {
            self
        } else {
            self.run(replies.drop_last()).step(replies.last())
        }
    }

    /// The enumeration tells the truth at every step of the run.
    pub open spec fn truthful_run(self, live: Set<int>, replies: Seq<Reply>) -> bool {
        forall|i: int|
            0 <= i < replies.len() ==> (#[trigger] self.run(replies.take(i))).truthful(
                live,
                replies[i],
            )
    }
}

/// A walk hands out what the run of its cursor hands out.
pub proof fn lemma_walk_is_run(s: FdIterView, replies: Seq<Reply>)
    ensures
        Walk::start(s).run(replies).s == s.run(replies).0,
        Walk::start(s).run(replies).fds == s.run(replies).1,
    decreases replies.len(),
{
    if replies.len() > 0 {
        lemma_walk_is_run(s, replies.drop_last());
    }
}

proof fn lemma_walk_inv(w: Walk, live: Set<int>, replies: Seq<Reply>)
    requires
        w.fds.len() == 0,
        !w.ended,
        w.truthful_run(live, replies),
    ensures
        ({
            let end = w.run(replies);
            &&& w.frontier <= end.frontier
            &&& forall|x: int| seen(end.fds, x) <==> live.contains(x) && w.frontier <= x < end.frontier
            &&& forall|i: int| 0 <= i < end.fds.len() ==> end.fds[i] < end.frontier
            &&& forall|i: int, j: int| 0 <= i < j < end.fds.len() ==> end.fds[i] < end.fds[j]
            &&& (end.ended ==> forall|x: int| end.frontier <= x ==> !live.contains(x))
        }),
    decreases replies.len(),
{
    if replies.len() > 0 {
        let before = replies.drop_last();
        assert forall|i: int| 0 <= i < before.len() implies (#[trigger] w.run(
            before.take(i),
        )).truthful(live, before[i]) by {
            assert(before.take(i) =~= replies.take(i));
        }
        lemma_walk_inv(w, live, before);
        let m = w.run(before);
        assert(replies.take(replies.len() - 1) =~= before);
        assert(w.run(replies.take(replies.len() - 1)).truthful(live, replies[replies.len() - 1]));
        let end = w.run(replies);
        match m.s.next(replies.last()).1 {
            Poll::Ready(Some(fd)) => {
                assert(end.fds == m.fds.push(fd));
                assert(end.frontier == fd + 1);
                assert(m.frontier <= fd);
                assert forall|x: int| seen(end.fds, x) implies live.contains(x) && w.frontier <= x
                    < end.frontier by {
                    let i = choose|i: int| 0 <= i < end.fds.len() && end.fds[i] == x;
                    if i < m.fds.len() {
                        assert(m.fds[i] == x);
                        assert(seen(m.fds, x));
                    }
                }
                assert forall|x: int| live.contains(x) && w.frontier <= x < end.frontier implies seen(
                    end.fds,
                    x,
                ) by {
                    if x == fd {
                        assert(end.fds[m.fds.len() as int] == x);
                    } else {
                        assert(x < m.frontier);
                        assert(seen(m.fds, x));
                        let i = choose|i: int| 0 <= i < m.fds.len() && m.fds[i] == x;
                        assert(end.fds[i] == x);
                    }
                }
                assert forall|i: int, j: int| 0 <= i < j < end.fds.len() implies end.fds[i]
                    < end.fds[j] by {
                    if j < m.fds.len() {
                        assert(m.fds[i] < m.fds[j]);
                    } else {
                        assert(m.fds[i] < m.frontier);
                    }
                }
            },
            _ => {
                assert(end.fds == m.fds);
                assert(end.frontier == m.frontier);
            },
        }
    } else {
        assert forall|x: int| !seen(w.fds, x) by {
            if seen(w.fds, x) {
                let i = choose|i: int| 0 <= i < w.fds.len() && w.fds[i] == x;
            }
        }
    }
}

/// An enumeration that tells the truth up to its end hands out exactly the
/// open descriptors at or above the lowest number that could come when it
/// started, each once and in ascending order.
pub proof fn lemma_enumerate_exact(s: FdIterView, live: Set<int>, replies: Seq<Reply>)
    requires
        Walk::start(s).truthful_run(live, replies),
        Walk::start(s).run(replies).ended,
    ensures
        forall|x: int|
            seen(Walk::start(s).run(replies).fds, x) <==> live.contains(x) && s.floor() <= x,
        forall|i: int, j: int|
            0 <= i < j < Walk::start(s).run(replies).fds.len() ==> Walk::start(s).run(
                replies,
            ).fds[i] < Walk::start(s).run(replies).fds[j],
{
    lemma_walk_inv(Walk::start(s), live, replies);
}

} // verus!
