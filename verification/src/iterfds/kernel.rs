//! What an enumeration comes to on a kernel that answers truthfully.
//!
//! The numbers that matter are told by a set `dead`: a number is dead when it
//! is no open descriptor, or is one that needs no attention any more. A
//! kernel is honest with an enumeration when the records it lists leave out
//! only dead numbers, when it reports the end of its listing only where
//! nothing but dead numbers is left, when the bound it gives for a scan has
//! only dead numbers above it, and when it denies only dead numbers to be
//! open.

use crate::iterfds::dirfd::{
    lemma_listing_step, lemma_scan, record_fd, record_len, record_ok, scan_spec, Awaiting,
    DirFdIterView, Scan, LISTING_BUF_LEN,
};
use crate::iterfds::fditer::{
    base_ok, clamp_open_max_spec, lemma_step, says_open, step_ok, FdIterView, Phase,
};
use crate::iterfds::laws::{ascending_from, lemma_enumerate_exact, seen, Walk};
use crate::sys::{DirentLayout, Poll, Reply, Sys};
use crate::util::is_wsl_1_spec;
use vstd::prelude::*;

verus! {

/// Every number from `low` up to, but not including, `high` is dead.
pub open spec fn dead_between(dead: Set<int>, low: int, high: int) -> bool {
    forall|x: int| low <= x < high ==> dead.contains(x)
}

/// Every number from `low` upward is dead.
pub open spec fn dead_from(dead: Set<int>, low: int) -> bool {
    forall|x: int| low <= x ==> dead.contains(x)
}

/// The records in `data` from `off` on list what is alive from `floor`
/// upward: those that name a descriptor to hand out go upward, and every
/// number that they pass over is dead.
pub open spec fn lists_from(
    layout: DirentLayout,
    data: Seq<u8>,
    off: int,
    minfd: i32,
    dirfd: i32,
    floor: int,
    dead: Set<int>,
) -> bool
    decreases data.len() - off,
{
    if off >= data.len() || !record_ok(layout, data, off) {
        true
    } else {
        let next = off + record_len(layout, data, off);
        match record_fd(layout, data, off) {
            Some(fd) if fd >= minfd && fd != dirfd => fd >= floor && dead_between(
                dead,
                floor,
                fd as int,
            ) && lists_from(layout, data, next, minfd, dirfd, fd + 1, dead),
            _ => lists_from(layout, data, next, minfd, dirfd, floor, dead),
        }
    }
}

/// Records that list what is alive go upward.
pub proof fn lemma_lists_ascending(
    layout: DirentLayout,
    data: Seq<u8>,
    off: int,
    minfd: i32,
    dirfd: i32,
    floor: int,
    dead: Set<int>,
)
    requires
        lists_from(layout, data, off, minfd, dirfd, floor, dead),
    ensures
        ascending_from(layout, data, off, minfd, dirfd, floor),
    decreases data.len() - off,
{
    if off < data.len() && record_ok(layout, data, off) {
        let next = off + record_len(layout, data, off);
        match record_fd(layout, data, off) {
            Some(fd) if fd >= minfd && fd != dirfd => {
                lemma_lists_ascending(layout, data, next, minfd, dirfd, fd + 1, dead);
            },
            _ => {
                lemma_lists_ascending(layout, data, next, minfd, dirfd, floor, dead);
            },
        }
    }
}

/// Records that list what is alive still do so when more numbers are dead.
pub proof fn lemma_lists_grow(
    layout: DirentLayout,
    data: Seq<u8>,
    off: int,
    minfd: i32,
    dirfd: i32,
    floor: int,
    dead: Set<int>,
    more: Set<int>,
)
    requires
        lists_from(layout, data, off, minfd, dirfd, floor, dead),
        dead.subset_of(more),
    ensures
        lists_from(layout, data, off, minfd, dirfd, floor, more),
    decreases data.len() - off,
{
    if off < data.len() && record_ok(layout, data, off) {
        let next = off + record_len(layout, data, off);
        match record_fd(layout, data, off) {
            Some(fd) if fd >= minfd && fd != dirfd => {
                lemma_lists_grow(layout, data, next, minfd, dirfd, fd + 1, dead, more);
            },
            _ => {
                lemma_lists_grow(layout, data, next, minfd, dirfd, floor, dead, more);
            },
        }
    }
}

/// Where records list what is alive from `off`, the walk from `off` finds a
/// descriptor at or above `floor` with only dead numbers between the two, and
/// the records after it list what is alive from just above that descriptor; a
/// walk that finds none leaves records that list what is alive.
pub proof fn lemma_lists_scan(
    layout: DirentLayout,
    data: Seq<u8>,
    off: int,
    minfd: i32,
    dirfd: i32,
    floor: int,
    dead: Set<int>,
)
    requires
        lists_from(layout, data, off, minfd, dirfd, floor, dead),
    ensures
        ({
            let (next, scan) = scan_spec(layout, data, off, minfd, dirfd);
            match scan {
                Scan::Entry(fd) => fd >= floor && dead_between(dead, floor, fd as int)
                    && lists_from(layout, data, next, minfd, dirfd, fd + 1, dead),
                _ => lists_from(layout, data, next, minfd, dirfd, floor, dead),
            }
        }),
    decreases data.len() - off,
{
    if off < data.len() && record_ok(layout, data, off) {
        let next = off + record_len(layout, data, off);
        match record_fd(layout, data, off) {
            Some(fd) if fd >= minfd && fd != dirfd => {},
            _ => {
                lemma_lists_scan(layout, data, next, minfd, dirfd, floor, dead);
            },
        }
    }
}

/// What a listing cursor holds agrees with what is dead: an open one that is
/// reading holds records that list what is alive from `floor`, and one that
/// has come to the end of its directory has only dead numbers left from
/// `floor` upward.
pub open spec fn listing_tracks(l: DirFdIterView, floor: int, dead: Set<int>) -> bool {
    &&& (l.dirfd >= 0 && (l.awaiting is Nothing || l.awaiting is Read) ==> lists_from(
        l.layout,
        l.data,
        l.offset,
        l.minfd,
        l.dirfd,
        floor,
        dead,
    ))
    &&& (l.dirfd < 0 || l.awaiting is CloseAtEnd ==> dead_from(dead, floor))
}

/// The kernel is honest in the reply to what a listing cursor asked last:
/// records that the cursor takes list what is alive from `floor`, and the end
/// of the directory is reported only where nothing alive is left.
pub open spec fn listing_honest(l: DirFdIterView, floor: int, dead: Set<int>, reply: Reply) -> bool {
    match reply {
        Reply::Data(n, bytes) => l.awaiting is Read ==> (if 0 < n <= bytes@.len() && n
            <= LISTING_BUF_LEN {
            lists_from(l.layout, bytes@.take(n as int), 0, l.minfd, l.dirfd, floor, dead)
        } else {
            n == 0 ==> dead_from(dead, floor)
        }),
        _ => true,
    }
}

/// A step of a listing cursor that agrees with what is dead, on an honest
/// reply: a descriptor that it hands out is at or above `floor` with only dead
/// numbers between the two, the end is reported only where nothing alive is
/// left, and the cursor goes on agreeing with what is dead.
pub proof fn lemma_listing_honest_step(l: DirFdIterView, reply: Reply, floor: int, dead: Set<int>)
    requires
        listing_tracks(l, floor, dead),
        listing_honest(l, floor, dead, reply),
    ensures
        ({
            let (m, r) = l.next(reply);
            match r {
                Poll::Ready(Ok(Some(fd))) => fd >= floor && dead_between(dead, floor, fd as int)
                    && listing_tracks(m, fd + 1, dead),
                Poll::Ready(Ok(None)) => dead_from(dead, floor) && listing_tracks(m, floor, dead),
                Poll::Ready(Err(_)) => true,
                Poll::Pending(_) => listing_tracks(m, floor, dead),
            }
        }),
{
    match l.awaiting {
        Awaiting::Nothing => {
            lemma_resume_honest(l, floor, dead);
        },
        Awaiting::Read => {
            match reply {
                Reply::Data(n, bytes) if 0 < n <= bytes@.len() && n <= LISTING_BUF_LEN => {
                    lemma_resume_honest(
                        DirFdIterView {
                            data: bytes@.take(n as int),
                            offset: 0,
                            awaiting: Awaiting::Nothing,
                            ..l
                        },
                        floor,
                        dead,
                    );
                },
                _ => {},
            }
        },
        _ => {},
    }
}

proof fn lemma_resume_honest(l: DirFdIterView, floor: int, dead: Set<int>)
    requires
        listing_tracks(l, floor, dead),
        l.awaiting is Nothing,
    ensures
        ({
            let (m, r) = l.resume();
            match r {
                Poll::Ready(Ok(Some(fd))) => fd >= floor && dead_between(dead, floor, fd as int)
                    && listing_tracks(m, fd + 1, dead),
                Poll::Ready(Ok(None)) => dead_from(dead, floor) && listing_tracks(m, floor, dead),
                Poll::Ready(Err(_)) => true,
                Poll::Pending(_) => listing_tracks(m, floor, dead),
            }
        }),
{
    if l.dirfd >= 0 {
        lemma_lists_scan(l.layout, l.data, l.offset, l.minfd, l.dirfd, floor, dead);
        lemma_scan(l.layout, l.data, l.offset, l.minfd, l.dirfd);
    }
}

/// An enumeration agrees with what is dead: it is well formed; between the
/// lowest number `frontier` that it has not handed out or passed over for
/// good and the lowest number that may still come, every number is dead; a
/// bound of the scan, once known, has only dead numbers above it; and its
/// listing agrees with what is dead.
pub open spec fn tracks(s: FdIterView, frontier: int, dead: Set<int>) -> bool {
    &&& s.wf()
    &&& frontier <= s.floor()
    &&& dead_between(dead, frontier, s.floor())
    &&& (s.maxfd matches Some(m) ==> dead_from(dead, m + 1))
    &&& (s.listing matches Some(l) ==> listing_tracks(l, s.floor(), dead) && !(s.phase
        is AwaitValid))
}

/// The kernel is honest in the reply to what the enumeration asked last: see
/// the top of this file. Of a bound of the scan nothing is asked but that only
/// dead numbers lie above it, however the bound was arrived at.
pub open spec fn honest(s: FdIterView, dead: Set<int>, reply: Reply) -> bool {
    &&& (s.phase is Listing ==> (s.listing matches Some(l) ==> listing_honest(
        l,
        s.floor(),
        dead,
        reply,
    )))
    &&& (s.maxfd is None ==> (s.next(reply).0.maxfd matches Some(m) ==> dead_from(dead, m + 1)))
    &&& (s.phase matches Phase::AwaitValid { fd } ==> !says_open(reply) ==> dead.contains(
        fd as int,
    ))
}

/// A kernel that is honest with an enumeration lists its descriptors in
/// order.
pub proof fn lemma_honest_is_orderly(s: FdIterView, dead: Set<int>, reply: Reply)
    requires
        honest(s, dead, reply),
    ensures
        s.orderly(reply),
{
    if let (Some(l), Reply::Data(n, bytes)) = (s.listing, reply) {
        if s.phase is Listing && l.awaiting is Read && 0 < n <= bytes@.len() && n
            <= LISTING_BUF_LEN {
            lemma_lists_ascending(
                l.layout,
                bytes@.take(n as int),
                0,
                l.minfd,
                l.dirfd,
                s.curfd,
                dead,
            );
        }
    }
}

/// What a step of an enumeration that agrees with what is dead comes to: a
/// descriptor that is handed out is at or above `frontier` with only dead
/// numbers between the two, and the end is reported only where nothing alive
/// is left from `frontier` upward; and the enumeration goes on agreeing with
/// what is dead, from just above what it has handed out.
pub open spec fn fair(frontier: int, dead: Set<int>, t: FdIterView, r: Poll<Option<i32>>) -> bool {
    match r {
        Poll::Ready(Some(fd)) => frontier <= fd && dead_between(dead, frontier, fd as int)
            && tracks(t, fd + 1, dead),
        Poll::Ready(None) => dead_from(dead, frontier) && tracks(t, frontier, dead),
        Poll::Pending(_) => tracks(t, frontier, dead),
    }
}

/// What holds of an enumeration that agrees with what is dead, whatever it is
/// waiting for.
pub open spec fn tracks_base(s: FdIterView, frontier: int, dead: Set<int>) -> bool {
    &&& base_ok(s)
    &&& frontier <= s.curfd
    &&& dead_between(dead, frontier, s.curfd)
    &&& (s.maxfd matches Some(m) ==> dead_from(dead, m + 1))
}

proof fn lemma_scan_fair(s: FdIterView, frontier: int, dead: Set<int>)
    requires
        tracks_base(s, frontier, dead),
        step_ok(s, s.scan().0, s.scan().1),
        s.maxfd is None ==> (s.scan().0.maxfd matches Some(m) ==> dead_from(dead, m + 1)),
    ensures
        fair(frontier, dead, s.scan().0, s.scan().1),
{
}

proof fn lemma_with_bound_fair(s: FdIterView, maxfd: i32, frontier: int, dead: Set<int>)
    requires
        tracks_base(s, frontier, dead),
        s.maxfd is None,
        step_ok(s, s.with_bound(maxfd).0, s.with_bound(maxfd).1),
        dead_from(dead, maxfd + 1),
    ensures
        fair(frontier, dead, s.with_bound(maxfd).0, s.with_bound(maxfd).1),
{
    let t = FdIterView { maxfd: Some(maxfd), listing: None, ..s };
    lemma_scan_fair(t, frontier, dead);
}

proof fn lemma_ask_open_fair(s: FdIterView, second: bool, frontier: int, dead: Set<int>)
    requires
        tracks_base(s, frontier, dead),
        s.listing matches Some(l) ==> listing_tracks(l, s.curfd, dead),
        !(s.phase is AwaitValid),
        step_ok(s, s.ask_open(second).0, s.ask_open(second).1),
    ensures
        fair(frontier, dead, s.ask_open(second).0, s.ask_open(second).1),
{
    lemma_scan_fair(s, frontier, dead);
}

proof fn lemma_step_listing_fair(s: FdIterView, reply: Reply, frontier: int, dead: Set<int>)
    requires
        tracks_base(s, frontier, dead),
        !(s.phase is AwaitValid),
        s.listing matches Some(l) ==> listing_tracks(l, s.curfd, dead) && listing_honest(
            l,
            s.curfd,
            dead,
            reply,
        ),
        step_ok(s, s.step_listing(reply).0, s.step_listing(reply).1),
    ensures
        fair(frontier, dead, s.step_listing(reply).0, s.step_listing(reply).1),
{
    match s.listing {
        None => {
            lemma_scan_fair(s, frontier, dead);
        },
        Some(l) => {
            lemma_listing_honest_step(l, reply, s.curfd, dead);
            lemma_listing_step(l, reply);
            let (l2, r) = l.next(reply);
            let t = FdIterView { listing: Some(l2), phase: Phase::Listing, ..s };
            match r {
                Poll::Ready(Err(_)) => {
                    lemma_scan_fair(t, frontier, dead);
                },
                _ => {},
            }
        },
    }
}

proof fn lemma_enter_listing_fair(s: FdIterView, dirfd: i32, frontier: int, dead: Set<int>)
    requires
        tracks_base(s, frontier, dead),
        s.maxfd is None,
        !(s.phase is AwaitValid),
        dirfd >= 0,
        step_ok(s, s.enter_listing(dirfd).0, s.enter_listing(dirfd).1),
    ensures
        fair(frontier, dead, s.enter_listing(dirfd).0, s.enter_listing(dirfd).1),
{
    let t = FdIterView {
        listing: Some(
            DirFdIterView {
                minfd: s.minfd,
                dirfd,
                layout: s.sys.dirent,
                data: Seq::<u8>::empty(),
                offset: 0,
                awaiting: Awaiting::Nothing,
            },
        ),
        phase: Phase::Listing,
        ..s
    };
    lemma_step_listing_fair(t, Reply::Nothing, frontier, dead);
}

/// One step of an enumeration that agrees with what is dead, on the reply of
/// an honest kernel: the step is fair. Each descriptor handed out is the
/// lowest that is not dead among those not yet passed, and the end is
/// reported only where nothing alive is left.
pub proof fn lemma_honest_step(s: FdIterView, frontier: int, dead: Set<int>, reply: Reply)
    requires
        tracks(s, frontier, dead),
        honest(s, dead, reply),
    ensures
        fair(frontier, dead, s.next(reply).0, s.next(reply).1),
{
    lemma_step(s, reply);
    match s.phase {
        Phase::Start => {
            lemma_scan_fair(s, frontier, dead);
            lemma_ask_open_fair(s, false, frontier, dead);
        },
        Phase::AwaitRelease => {
            let wsl1 = match reply {
                Reply::Data(_, bytes) => is_wsl_1_spec(bytes@),
                _ => false,
            };
            let t = FdIterView { sys: Sys { wsl1: Some(wsl1), ..s.sys }, ..s };
            if wsl1 {
                lemma_scan_fair(t, frontier, dead);
            } else {
                lemma_ask_open_fair(t, false, frontier, dead);
            }
        },
        Phase::AwaitOpen { second } => {
            match reply {
                Reply::Value(fd) if 0 <= fd <= i32::MAX => {
                    if !s.sys.os.spec_listing_needs_device_check() {
                        lemma_enter_listing_fair(s, fd as i32, frontier, dead);
                    }
                },
                _ => {
                    if second {
                        lemma_scan_fair(s, frontier, dead);
                    } else {
                        lemma_ask_open_fair(s, true, frontier, dead);
                    }
                },
            }
        },
        Phase::AwaitDevices { dirfd } => {
            match reply {
                Reply::Pair(dev, devfd) if dev != devfd && dirfd >= 0 => {
                    lemma_enter_listing_fair(s, dirfd, frontier, dead);
                },
                _ => {},
            }
        },
        Phase::AwaitCloseUntrusted => {
            lemma_scan_fair(s, frontier, dead);
        },
        Phase::Listing => {
            lemma_step_listing_fair(s, reply, frontier, dead);
        },
        Phase::Scan => {
            lemma_scan_fair(s, frontier, dead);
        },
        Phase::AwaitMaxFd => {
            match reply {
                Reply::Pair(ret, _) if 0 <= ret <= i32::MAX => {
                    lemma_with_bound_fair(s, ret as i32, frontier, dead);
                },
                Reply::Pair(ret, errno) if ret == -1 && errno == 0 => {
                    lemma_with_bound_fair(s, -1i32, frontier, dead);
                },
                _ => {},
            }
        },
        Phase::AwaitCount => {
            match reply {
                Reply::Value(n) if n == 0 => {
                    lemma_with_bound_fair(s, -1i32, frontier, dead);
                },
                _ => {},
            }
        },
        Phase::Counting { nfds, fd, found } => {
            if s.next(reply) == s.with_bound(fd) {
                lemma_with_bound_fair(s, fd, frontier, dead);
            }
        },
        Phase::AwaitOpenMax => {
            match reply {
                Reply::Value(limit) => {
                    lemma_with_bound_fair(s, clamp_open_max_spec(limit), frontier, dead);
                },
                _ => {
                    lemma_with_bound_fair(s, 1023, frontier, dead);
                },
            }
        },
        Phase::AwaitValid { fd } => {
            if !says_open(reply) {
                lemma_scan_fair(s, frontier, dead);
            }
        },
    }
}

/// An enumeration that agrees with what is dead still does so when more
/// numbers are dead.
pub proof fn lemma_tracks_grow(s: FdIterView, frontier: int, dead: Set<int>, more: Set<int>)
    requires
        tracks(s, frontier, dead),
        dead.subset_of(more),
    ensures
        tracks(s, frontier, more),
{
    if let Some(l) = s.listing {
        if l.dirfd >= 0 && (l.awaiting is Nothing || l.awaiting is Read) {
            lemma_lists_grow(l.layout, l.data, l.offset, l.minfd, l.dirfd, s.floor(), dead, more);
        }
    }
}

/// An enumeration that has taken no step agrees with whatever is dead.
pub proof fn lemma_fresh_tracks(
    minfd: i32,
    possible: bool,
    skip_nfds: bool,
    allow_listing: bool,
    sys: Sys,
    dead: Set<int>,
)
    ensures
        tracks(
            FdIterView::fresh(minfd, possible, skip_nfds, allow_listing, sys),
            FdIterView::fresh(minfd, possible, skip_nfds, allow_listing, sys).curfd,
            dead,
        ),
{
}

/// The records in `data` from `off` on that name a descriptor to hand out
/// name none that is dead.
pub open spec fn names_alive(
    layout: DirentLayout,
    data: Seq<u8>,
    off: int,
    minfd: i32,
    dirfd: i32,
    dead: Set<int>,
) -> bool
    decreases data.len() - off,
{
    if off >= data.len() || !record_ok(layout, data, off) {
        true
    } else {
        let next = off + record_len(layout, data, off);
        match record_fd(layout, data, off) {
            Some(fd) if fd >= minfd && fd != dirfd => !dead.contains(fd as int) && names_alive(
                layout,
                data,
                next,
                minfd,
                dirfd,
                dead,
            ),
            _ => names_alive(layout, data, next, minfd, dirfd, dead),
        }
    }
}

proof fn lemma_names_scan(
    layout: DirentLayout,
    data: Seq<u8>,
    off: int,
    minfd: i32,
    dirfd: i32,
    dead: Set<int>,
)
    requires
        names_alive(layout, data, off, minfd, dirfd, dead),
    ensures
        ({
            let (next, scan) = scan_spec(layout, data, off, minfd, dirfd);
            &&& names_alive(layout, data, next, minfd, dirfd, dead)
            &&& (scan matches Scan::Entry(fd) ==> !dead.contains(fd as int))
        }),
    decreases data.len() - off,
{
    if off < data.len() && record_ok(layout, data, off) {
        let next = off + record_len(layout, data, off);
        match record_fd(layout, data, off) {
            Some(fd) if fd >= minfd && fd != dirfd => {},
            _ => {
                lemma_names_scan(layout, data, next, minfd, dirfd, dead);
            },
        }
    }
}

/// An enumeration hands out nothing dead: it looks at each number of a scan
/// before it hands it out, and the records that its listing holds name
/// nothing dead.
pub open spec fn sound(s: FdIterView, dead: Set<int>) -> bool {
    &&& !s.possible
    &&& (s.listing matches Some(l) ==> (l.dirfd >= 0 ==> names_alive(
        l.layout,
        l.data,
        l.offset,
        l.minfd,
        l.dirfd,
        dead,
    )))
}

/// The kernel is candid in the reply to what the enumeration asked last: it
/// is honest, the records that the listing takes name nothing dead, and it
/// affirms only of numbers that are not dead that they are open.
pub open spec fn candid(s: FdIterView, dead: Set<int>, reply: Reply) -> bool {
    &&& honest(s, dead, reply)
    &&& (s.phase is Listing ==> match (s.listing, reply) {
        (Some(l), Reply::Data(n, bytes)) => (l.awaiting is Read && 0 < n <= bytes@.len() && n
            <= LISTING_BUF_LEN) ==> names_alive(
            l.layout,
            bytes@.take(n as int),
            0,
            l.minfd,
            l.dirfd,
            dead,
        ),
        _ => true,
    })
    &&& (s.phase matches Phase::AwaitValid { fd } ==> says_open(reply) ==> !dead.contains(
        fd as int,
    ))
}

proof fn lemma_listing_sound_step(l: DirFdIterView, reply: Reply, dead: Set<int>)
    requires
        l.dirfd >= 0 ==> names_alive(l.layout, l.data, l.offset, l.minfd, l.dirfd, dead),
        reply matches Reply::Data(n, bytes) ==> (l.awaiting is Read && 0 < n <= bytes@.len() && n
            <= LISTING_BUF_LEN) ==> names_alive(
            l.layout,
            bytes@.take(n as int),
            0,
            l.minfd,
            l.dirfd,
            dead,
        ),
    ensures
        ({
            let (m, r) = l.next(reply);
            &&& (m.dirfd >= 0 ==> names_alive(m.layout, m.data, m.offset, m.minfd, m.dirfd, dead))
            &&& (r matches Poll::Ready(Ok(Some(fd))) ==> !dead.contains(fd as int))
        }),
{
    lemma_listing_step(l, reply);
    if l.dirfd >= 0 {
        lemma_names_scan(l.layout, l.data, l.offset, l.minfd, l.dirfd, dead);
        if let Reply::Data(n, bytes) = reply {
            if l.awaiting is Read && 0 < n <= bytes@.len() && n <= LISTING_BUF_LEN {
                lemma_names_scan(l.layout, bytes@.take(n as int), 0, l.minfd, l.dirfd, dead);
            }
        }
    }
}

/// One step of an enumeration that hands out nothing dead, on the reply of a
/// candid kernel: what it hands out is not dead, and it goes on handing out
/// nothing dead.
pub proof fn lemma_candid_step(s: FdIterView, dead: Set<int>, reply: Reply)
    requires
        s.wf(),
        sound(s, dead),
        candid(s, dead, reply),
    ensures
        sound(s.next(reply).0, dead),
        s.next(reply).1 matches Poll::Ready(Some(fd)) ==> !dead.contains(fd as int),
{
    lemma_step(s, reply);
    if let Some(l) = s.listing {
        if s.phase is Listing {
            lemma_listing_sound_step(l, reply, dead);
        }
    }
    let fresh = DirFdIterView {
        minfd: s.minfd,
        dirfd: 0,
        layout: s.sys.dirent,
        data: Seq::<u8>::empty(),
        offset: 0,
        awaiting: Awaiting::Nothing,
    };
    if let Phase::AwaitOpen { second } = s.phase {
        if let Reply::Value(fd) = reply {
            if 0 <= fd <= i32::MAX {
                lemma_listing_sound_step(
                    DirFdIterView { dirfd: fd as i32, ..fresh },
                    Reply::Nothing,
                    dead,
                );
            }
        }
    }
    if let Phase::AwaitDevices { dirfd } = s.phase {
        lemma_listing_sound_step(DirFdIterView { dirfd, ..fresh }, Reply::Nothing, dead);
    }
}

impl Walk {
    /// The kernel is candid at the step that `reply` answers, in a process
    /// whose open descriptors are `live`.
    pub open spec fn candid(self, live: Set<int>, reply: Reply) -> bool {
        candid(self.s, live.complement(), reply)
    }

    /// The kernel is candid at every step of the run.
    pub open spec fn candid_run(self, live: Set<int>, replies: Seq<Reply>) -> bool {
        forall|i: int|
            0 <= i < replies.len() ==> (#[trigger] self.run(replies.take(i))).candid(
                live,
                replies[i],
            )
    }
}

proof fn lemma_walk_candid_step(w: Walk, live: Set<int>, reply: Reply)
    requires
        tracks(w.s, w.frontier, live.complement()),
        sound(w.s, live.complement()),
        w.candid(live, reply),
    ensures
        w.truthful(live, reply),
        tracks(w.step(reply).s, w.step(reply).frontier, live.complement()),
        sound(w.step(reply).s, live.complement()),
{
    let dead = live.complement();
    lemma_honest_step(w.s, w.frontier, dead, reply);
    lemma_candid_step(w.s, dead, reply);
    match w.s.next(reply).1 {
        Poll::Ready(Some(fd)) => {
            assert forall|x: int| w.frontier <= x < fd implies !live.contains(x) by {
                assert(dead.contains(x));
            }
        },
        Poll::Ready(None) => {
            assert forall|x: int| w.frontier <= x implies !live.contains(x) by {
                assert(dead.contains(x));
            }
        },
        _ => {},
    }
}

proof fn lemma_walk_candid_run(w: Walk, live: Set<int>, replies: Seq<Reply>)
    requires
        tracks(w.s, w.frontier, live.complement()),
        sound(w.s, live.complement()),
        w.candid_run(live, replies),
    ensures
        tracks(w.run(replies).s, w.run(replies).frontier, live.complement()),
        sound(w.run(replies).s, live.complement()),
    decreases replies.len(),
{
    if replies.len() > 0 {
        let before = replies.drop_last();
        lemma_candid_prefix(w, live, replies, replies.len() - 1);
        assert(replies.take(replies.len() - 1) =~= before);
        lemma_walk_candid_run(w, live, before);
        assert(w.run(replies.take(replies.len() - 1)).candid(live, replies[replies.len() - 1]));
        lemma_walk_candid_step(w.run(before), live, replies.last());
    }
}

proof fn lemma_candid_prefix(w: Walk, live: Set<int>, replies: Seq<Reply>, n: int)
    requires
        w.candid_run(live, replies),
        0 <= n <= replies.len(),
    ensures
        w.candid_run(live, replies.take(n)),
{
    let before = replies.take(n);
    assert forall|i: int| 0 <= i < before.len() implies (#[trigger] w.run(
        before.take(i),
    )).candid(live, before[i]) by {
        assert(before.take(i) =~= replies.take(i));
    }
}

/// On a candid kernel, an enumeration that looks before it hands out hands
/// out, up to its end, exactly the open descriptors at or above its
/// threshold, each once and in ascending order.
pub proof fn lemma_enumerate_exact_on_candid_kernel(
    minfd: i32,
    skip_nfds: bool,
    allow_listing: bool,
    sys: Sys,
    live: Set<int>,
    replies: Seq<Reply>,
)
    requires
        Walk::start(FdIterView::fresh(minfd, false, skip_nfds, allow_listing, sys)).candid_run(
            live,
            replies,
        ),
        Walk::start(FdIterView::fresh(minfd, false, skip_nfds, allow_listing, sys)).run(
            replies,
        ).ended,
    ensures
        forall|x: int|
            seen(
                Walk::start(FdIterView::fresh(minfd, false, skip_nfds, allow_listing, sys)).run(
                    replies,
                ).fds,
                x,
            ) <==> live.contains(x) && x >= minfd && x >= 0,
        forall|i: int, j: int|
            0 <= i < j < Walk::start(
                FdIterView::fresh(minfd, false, skip_nfds, allow_listing, sys),
            ).run(replies).fds.len() ==> Walk::start(
                FdIterView::fresh(minfd, false, skip_nfds, allow_listing, sys),
            ).run(replies).fds[i] < Walk::start(
                FdIterView::fresh(minfd, false, skip_nfds, allow_listing, sys),
            ).run(replies).fds[j],
{
    let s = FdIterView::fresh(minfd, false, skip_nfds, allow_listing, sys);
    let w = Walk::start(s);
    lemma_fresh_tracks(minfd, false, skip_nfds, allow_listing, sys, live.complement());
    assert forall|i: int| 0 <= i < replies.len() implies (#[trigger] w.run(
        replies.take(i),
    )).truthful(live, replies[i]) by {
        lemma_candid_prefix(w, live, replies, i);
        lemma_walk_candid_run(w, live, replies.take(i));
        lemma_walk_candid_step(w.run(replies.take(i)), live, replies[i]);
    }
    lemma_enumerate_exact(s, live, replies);
}

} // verus!
