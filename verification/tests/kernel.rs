use close_fds::closefds::cloexec;
use close_fds::closefds::close;
use close_fds::sys::RangeSupport;
use close_fds::util::{is_fd_valid, set_cloexec};
use close_fds::{
    close_open_fds, iter_fds, iter_open_fds, iter_open_fds_threadsafe, iter_possible_fds,
    iter_possible_fds_threadsafe, probe, probed, set_fds_cloexec, set_fds_cloexec_generic,
    set_fds_cloexec_threadsafe, Capability, CloseFdsBuilder, DirFdIter, DirentLayout, FdIter,
    FdIterBuilder, ListingPath, Os, Poll, Reply, Request, Sweep, Sys,
};
use std::collections::{BTreeMap, BTreeSet};

/// What a call returned, held so that a reply can borrow from it.
#[derive(Clone, Debug, PartialEq)]
enum Answer {
    Nothing,
    Failed,
    Value(i64),
    Pair(i64, i64),
    Data(i64, Vec<u8>),
}

impl Answer {
    fn reply(&self) -> Reply<'_> {
        match self {
            Answer::Nothing => Reply::Nothing,
            Answer::Failed => Reply::Failed,
            Answer::Value(v) => Reply::Value(*v),
            Answer::Pair(a, b) => Reply::Pair(*a, *b),
            Answer::Data(n, bytes) => Reply::Data(*n, bytes),
        }
    }
}

/// How far an open listing directory has been read.
#[derive(Clone, Debug, Default)]
struct Dir {
    dots: usize,
    last: Option<i32>,
}

/// A kernel to run the library against: a table of descriptors and the calls
/// that the library asks for.
#[derive(Clone, Debug)]
struct Kernel {
    os: Os,
    layout: DirentLayout,
    open: BTreeSet<i32>,
    cloexec: BTreeSet<i32>,
    dirs: BTreeMap<i32, Dir>,
    /// The listing directories that can be opened.
    paths: Vec<ListingPath>,
    close_range: bool,
    cloexec_range: bool,
    release: Vec<u8>,
    osreldate: Option<i64>,
    open_max: i64,
    devices: Option<(i64, i64)>,
    /// How many reads of a listing succeed before one fails.
    reads_before_failure: Option<usize>,
    /// Whether the listing lists the highest descriptor first.
    backwards: bool,
    /// A record length to write in place of the true one.
    corrupt_reclen: Option<u16>,
    reads: usize,
    calls: Vec<Request>,
}

fn linux_layout() -> DirentLayout {
    DirentLayout {
        reclen_offset: 16,
        namlen_offset: None,
        name_offset: 19,
        read_len: 280,
        big_endian: false,
    }
}

fn bsd_layout() -> DirentLayout {
    DirentLayout {
        reclen_offset: 16,
        namlen_offset: Some(20),
        name_offset: 24,
        read_len: 280,
        big_endian: false,
    }
}

const ALL_OS: [Os; 10] = [
    Os::Linux,
    Os::MacOs,
    Os::Ios,
    Os::FreeBsd,
    Os::NetBsd,
    Os::OpenBsd,
    Os::DragonFly,
    Os::Solaris,
    Os::Illumos,
    Os::Other,
];

impl Kernel {
    fn new(os: Os, open: &[i32]) -> Kernel {
        let layout = match os {
            Os::MacOs | Os::Ios | Os::FreeBsd | Os::NetBsd => bsd_layout(),
            _ => linux_layout(),
        };
        Kernel {
            os,
            layout,
            open: open.iter().copied().collect(),
            cloexec: BTreeSet::new(),
            dirs: BTreeMap::new(),
            paths: vec![ListingPath::ProcSelfFd, ListingPath::DevFd],
            close_range: matches!(os, Os::Linux | Os::FreeBsd),
            cloexec_range: matches!(os, Os::Linux),
            release: b"6.1.0-13-amd64\0".to_vec(),
            osreldate: Some(1400000),
            open_max: 1024,
            devices: Some((1, 2)),
            reads_before_failure: None,
            backwards: false,
            corrupt_reclen: None,
            reads: 0,
            calls: Vec::new(),
        }
    }

    fn sys(&self) -> Sys {
        Sys::new(self.os, self.layout)
    }

    fn open_fds(&self) -> Vec<i32> {
        self.open.iter().copied().collect()
    }

    fn open_one(&mut self) -> i32 {
        let mut fd = 0;
        while self.open.contains(&fd) {
            fd += 1;
        }
        self.open.insert(fd);
        fd
    }

    fn record(&self, name: &[u8]) -> Vec<u8> {
        let layout = &self.layout;
        let reclen = (layout.name_offset + name.len() + 1 + 7) / 8 * 8;
        let mut bytes = vec![0x55u8; reclen];
        let stated = self.corrupt_reclen.unwrap_or(reclen as u16).to_le_bytes();
        bytes[layout.reclen_offset] = stated[0];
        bytes[layout.reclen_offset + 1] = stated[1];
        if let Some(at) = layout.namlen_offset {
            let n = (name.len() as u16).to_le_bytes();
            bytes[at] = n[0];
            bytes[at + 1] = n[1];
        }
        bytes[layout.name_offset..layout.name_offset + name.len()].copy_from_slice(name);
        bytes[layout.name_offset + name.len()] = 0;
        bytes
    }

    /// The next entry of a listing: `.` and `..` first, then the descriptors
    /// that have not been listed, by number.
    fn next_entry(&self, dir: &Dir) -> Option<(Vec<u8>, Option<i32>)> {
        if dir.dots == 0 {
            return Some((b".".to_vec(), None));
        }
        if dir.dots == 1 {
            return Some((b"..".to_vec(), None));
        }
        let fd = if self.backwards {
            match dir.last {
                None => self.open.iter().next_back().copied(),
                Some(last) => self.open.range(..last).next_back().copied(),
            }
        } else {
            match dir.last {
                None => self.open.iter().next().copied(),
                Some(last) => self.open.range(last + 1..).next().copied(),
            }
        };
        fd.map(|fd| (format!("{}", fd).into_bytes(), Some(fd)))
    }

    fn read_listing(&mut self, dirfd: i32, len: usize) -> Answer {
        let mut dir = match self.dirs.get(&dirfd) {
            Some(dir) => dir.clone(),
            None => return Answer::Data(-1, Vec::new()),
        };
        if let Some(n) = self.reads_before_failure {
            if self.reads >= n {
                return Answer::Data(-1, Vec::new());
            }
        }
        self.reads += 1;
        let mut bytes: Vec<u8> = Vec::new();
        while let Some((name, fd)) = self.next_entry(&dir) {
            let rec = self.record(&name);
            if bytes.len() + rec.len() > len {
                break;
            }
            bytes.extend(rec);
            match fd {
                None => dir.dots += 1,
                Some(fd) => dir.last = Some(fd),
            }
        }
        self.dirs.insert(dirfd, dir);
        Answer::Data(bytes.len() as i64, bytes)
    }

    fn perform(&mut self, req: Request) -> Answer {
        self.calls.push(req);
        match req {
            Request::Proceed => Answer::Nothing,
            Request::KernelRelease => Answer::Data(0, self.release.clone()),
            Request::OpenListing { path, directory: _ } => {
                if self.paths.contains(&path) {
                    let fd = self.open_one();
                    self.cloexec.insert(fd);
                    self.dirs.insert(fd, Dir::default());
                    Answer::Value(fd as i64)
                } else {
                    Answer::Value(-1)
                }
            }
            Request::CompareDevices { dirfd: _ } => match self.devices {
                Some((a, b)) => Answer::Pair(a, b),
                None => Answer::Failed,
            },
            Request::ReadListing { dirfd, len } => self.read_listing(dirfd, len),
            Request::CloseListing { dirfd } => {
                self.dirs.remove(&dirfd);
                self.cloexec.remove(&dirfd);
                Answer::Value(if self.open.remove(&dirfd) { 0 } else { -1 })
            }
            Request::MaxFd => {
                Answer::Pair(self.open.iter().next_back().map_or(-1, |fd| *fd as i64), 0)
            }
            Request::CountFds => Answer::Value(self.open.len() as i64),
            Request::OpenMax => Answer::Value(self.open_max),
            Request::GetFlags { fd } => {
                if self.open.contains(&fd) {
                    Answer::Value(if self.cloexec.contains(&fd) { 1 } else { 0 })
                } else {
                    Answer::Value(-1)
                }
            }
            Request::SetFlags { fd, flags } => {
                if self.open.contains(&fd) {
                    if flags & 1 == 1 {
                        self.cloexec.insert(fd);
                    } else {
                        self.cloexec.remove(&fd);
                    }
                    Answer::Value(0)
                } else {
                    Answer::Value(-1)
                }
            }
            Request::Close { fd } => {
                self.cloexec.remove(&fd);
                self.dirs.remove(&fd);
                Answer::Value(if self.open.remove(&fd) { 0 } else { -1 })
            }
            Request::CloseFrom { fd } => {
                assert!(matches!(
                    self.os,
                    Os::FreeBsd | Os::NetBsd | Os::OpenBsd | Os::DragonFly
                ));
                self.open.retain(|x| *x < fd);
                self.cloexec.retain(|x| *x < fd);
                self.dirs.retain(|x, _| *x < fd);
                Answer::Nothing
            }
            Request::CloseRange { low, high } => {
                assert!(low <= high);
                if self.close_range {
                    self.open.retain(|x| (*x as u32) < low || (*x as u32) > high);
                    self.cloexec.retain(|x| (*x as u32) < low || (*x as u32) > high);
                    self.dirs.retain(|x, _| (*x as u32) < low || (*x as u32) > high);
                    Answer::Value(0)
                } else {
                    Answer::Value(-1)
                }
            }
            Request::CloexecRange { low, high } => {
                assert!(low <= high);
                if self.cloexec_range {
                    let marked: Vec<i32> = self
                        .open
                        .iter()
                        .copied()
                        .filter(|x| low <= *x as u32 && *x as u32 <= high)
                        .collect();
                    self.cloexec.extend(marked);
                    Answer::Value(0)
                } else {
                    Answer::Value(-1)
                }
            }
            Request::OsRelDate => match self.osreldate {
                Some(date) => Answer::Value(date),
                None => Answer::Failed,
            },
        }
    }

    fn count(&self, wanted: fn(&Request) -> bool) -> usize {
        self.calls.iter().filter(|req| wanted(req)).count()
    }

    fn asked(&self, wanted: fn(&Request) -> bool) -> bool {
        self.count(wanted) > 0
    }
}

/// What an enumeration needs between two of its results.
struct Driven {
    iter: FdIter,
    answer: Answer,
}

impl Driven {
    fn new(iter: FdIter) -> Driven {
        Driven { iter, answer: Answer::Nothing }
    }

    fn next(&mut self, kernel: &mut Kernel) -> Option<i32> {
        for _ in 0..1_000_000 {
            match self.iter.next(self.answer.reply()) {
                Poll::Ready(fd) => {
                    self.answer = Answer::Nothing;
                    return fd;
                }
                Poll::Pending(req) => self.answer = kernel.perform(req),
            }
        }
        panic!("the enumeration does not come to a result");
    }

    fn collect(mut self, kernel: &mut Kernel) -> Vec<i32> {
        let mut fds = Vec::new();
        while let Some(fd) = self.next(kernel) {
            fds.push(fd);
            assert!(fds.len() <= 100_000);
        }
        fds
    }
}

fn collect(kernel: &mut Kernel, iter: FdIter) -> Vec<i32> {
    Driven::new(iter).collect(kernel)
}

/// Runs a sweep to its end and hands back what it has learnt of the kernel.
fn run(kernel: &mut Kernel, mut sweep: Sweep<'_>) -> Sys {
    let mut answer = Answer::Nothing;
    for _ in 0..1_000_000 {
        match sweep.resume(answer.reply()) {
            Poll::Ready(()) => {
                assert!(sweep.is_done());
                return sweep.sys();
            }
            Poll::Pending(req) => answer = kernel.perform(req),
        }
    }
    panic!("the sweep does not come to an end");
}

fn flag_only_grew(before: Capability, after: Capability) -> bool {
    before == after
        || before == Capability::Unknown
        || (before == Capability::Available && after == Capability::Unavailable)
}

/// What is known of the kernel has only grown from `before` to `after`.
fn only_grew(before: Sys, after: Sys) -> bool {
    before.os == after.os
        && flag_only_grew(before.close_range, after.close_range)
        && flag_only_grew(before.cloexec_range, after.cloexec_range)
        && (before.wsl1.is_none() || before.wsl1 == after.wsl1)
}

fn check_sorted(items: &[i32]) {
    for pair in items.windows(2) {
        assert!(pair[0] < pair[1], "{:?}", items);
    }
}

fn is_range_call(req: &Request) -> bool {
    matches!(req, Request::CloseRange { .. } | Request::CloexecRange { .. })
}

fn is_listing_read(req: &Request) -> bool {
    matches!(req, Request::ReadListing { .. })
}

fn is_listing_open(req: &Request) -> bool {
    matches!(req, Request::OpenListing { .. })
}

fn is_listing_close(req: &Request) -> bool {
    matches!(req, Request::CloseListing { .. })
}

fn is_flags_query(req: &Request) -> bool {
    matches!(req, Request::GetFlags { .. })
}

fn is_single_close(req: &Request) -> bool {
    matches!(req, Request::Close { .. })
}

fn is_closefrom(req: &Request) -> bool {
    matches!(req, Request::CloseFrom { .. })
}

/// Every kernel family, with each of the ways in which it can let the
/// library down.
fn kernels(open: &[i32]) -> Vec<Kernel> {
    let mut all = Vec::new();
    for os in ALL_OS {
        let plain = Kernel::new(os, open);
        let mut no_listing = plain.clone();
        no_listing.paths.clear();
        let mut no_ranges = plain.clone();
        no_ranges.close_range = false;
        no_ranges.cloexec_range = false;
        no_ranges.osreldate = Some(1100000);
        let mut bare = no_ranges.clone();
        bare.paths.clear();
        let mut failing = plain.clone();
        failing.reads_before_failure = Some(1);
        let mut failing_bare = no_ranges.clone();
        failing_bare.reads_before_failure = Some(2);
        let mut corrupt = plain.clone();
        corrupt.corrupt_reclen = Some(0);
        let mut untrusted = plain.clone();
        untrusted.devices = Some((7, 7));
        let mut wsl = plain.clone();
        wsl.release = b"4.4.0-19041-Microsoft\0".to_vec();
        let mut large = plain.clone();
        large.open_max = 1 << 20;
        all.extend([
            plain, no_listing, no_ranges, bare, failing, failing_bare, corrupt, untrusted, wsl,
            large,
        ]);
    }
    all
}

#[test]
fn mod_test_size_hint_open() {
    for kernel in kernels(&[0, 1, 2]) {
        for threadsafe in [false, true] {
            let mut k = kernel.clone();
            let mut builder = FdIterBuilder::new();
            builder.threadsafe(threadsafe);
            test_size_hint_generic(&mut k, builder.iter_from(0, kernel.sys()));

            let mut k = kernel.clone();
            for _ in 0..10 {
                k.open_one();
            }
            test_size_hint_generic(&mut k, builder.iter_from(0, kernel.sys()));
        }
    }
}

#[test]
fn mod_test_size_hint_possible() {
    for kernel in kernels(&[0, 1, 2]) {
        for threadsafe in [false, true] {
            let mut k = kernel.clone();
            let mut builder = FdIterBuilder::new();
            builder.possible(true).threadsafe(threadsafe);
            test_size_hint_generic(&mut k, builder.iter_from(0, kernel.sys()));

            let mut k = kernel.clone();
            for _ in 0..10 {
                k.open_one();
            }
            test_size_hint_generic(&mut k, builder.iter_from(0, kernel.sys()));
        }
    }
}

fn test_size_hint_generic(kernel: &mut Kernel, fditer: FdIter) {
    let mut fditer = Driven::new(fditer);
    let (mut init_low, mut init_high) = fditer.iter.size_hint();
    if let Some(init_high) = init_high {
        // Sanity check
        assert!(init_high >= init_low);
    }

    let mut i = 0;
    while let Some(_fd) = fditer.next(kernel) {
        let (cur_low, cur_high) = fditer.iter.size_hint();

        // Adjust them so they're comparable to init_low and init_high
        let adj_low = cur_low + i + 1;
        let adj_high = if let Some(cur_high) = cur_high {
            // Sanity check
            assert!(cur_high >= cur_low);

            Some(cur_high + i + 1)
        } else {
            None
        };

        // Now we adjust init_low and init_high to be the most restrictive limits that we've
        // received so far.
        if adj_low > init_low {
            init_low = adj_low;
        }

        if let Some(adj_high) = adj_high {
            if let Some(ihigh) = init_high {
                if adj_high < ihigh {
                    init_high = Some(adj_high);
                }
            } else {
                init_high = Some(adj_high);
            }
        }

        i += 1;
    }

    // At the end, the lower boundary should be 0. The upper boundary can be anything.
    let (final_low, _) = fditer.iter.size_hint();
    assert_eq!(final_low, 0);

    // Now make sure that the actual count falls within the boundaries we were given
    assert!(i >= init_low);
    if let Some(init_high) = init_high {
        assert!(i <= init_high);
    }
}

#[test]
fn mod_test_fused_open() {
    for kernel in kernels(&[0, 1, 2]) {
        for threadsafe in [false, true] {
            let mut k = kernel.clone();
            let mut builder = FdIterBuilder::new();
            builder.threadsafe(threadsafe);
            test_fused_generic(&mut k, builder.iter_from(0, kernel.sys()));

            let mut k = kernel.clone();
            for _ in 0..10 {
                k.open_one();
            }
            test_fused_generic(&mut k, builder.iter_from(0, kernel.sys()));
        }
    }
}

#[test]
fn mod_test_fused_possible() {
    for kernel in kernels(&[0, 1, 2]) {
        for threadsafe in [false, true] {
            let mut k = kernel.clone();
            let mut builder = FdIterBuilder::new();
            builder.possible(true).threadsafe(threadsafe);
            test_fused_generic(&mut k, builder.iter_from(0, kernel.sys()));

            let mut k = kernel.clone();
            for _ in 0..10 {
                k.open_one();
            }
            test_fused_generic(&mut k, builder.iter_from(0, kernel.sys()));
        }
    }
}

fn test_fused_generic(kernel: &mut Kernel, fditer: FdIter) {
    let mut fditer = Driven::new(fditer);
    // Exhaust the iterator
    while fditer.next(kernel).is_some() {}
    assert_eq!(fditer.next(kernel), None);
    // Whatever the reply, the end stays the end, and nothing is asked.
    let calls = kernel.calls.len();
    for answer in [
        Answer::Nothing,
        Answer::Failed,
        Answer::Value(0),
        Answer::Value(-1),
        Answer::Pair(3, 4),
        Answer::Data(24, vec![0; 24]),
    ] {
        assert!(matches!(fditer.iter.next(answer.reply()), Poll::Ready(None)));
    }
    assert_eq!(kernel.calls.len(), calls);
    assert_eq!(fditer.iter.size_hint(), (0, Some(0)));
    // No listing directory is left open.
    assert!(kernel.dirs.is_empty());
    assert_eq!(kernel.count(is_listing_open) >= kernel.count(is_listing_close), true);
}

fn iter_open_fds_test(kernel: &Kernel, fd1: i32, fd2: i32, fd3: i32) {
    let sys = kernel.sys();
    let mut fds: Vec<i32>;

    fds = collect(&mut kernel.clone(), iter_open_fds(-1, sys));
    check_sorted(&fds);
    assert!(!fds.contains(&-1));
    assert!(fds.contains(&0));
    assert!(fds.contains(&fd1));
    assert!(fds.contains(&fd2));
    assert!(!fds.contains(&fd3));
    assert_eq!(fds, kernel.open_fds());

    assert_eq!(Driven::new(iter_open_fds(-1, sys)).next(&mut kernel.clone()), Some(0));

    fds = collect(&mut kernel.clone(), iter_open_fds_threadsafe(-1, sys));
    check_sorted(&fds);
    assert!(!fds.contains(&-1));
    assert!(fds.contains(&0));
    assert!(fds.contains(&fd1));
    assert!(fds.contains(&fd2));
    assert!(!fds.contains(&fd3));
    assert_eq!(fds, kernel.open_fds());

    fds = collect(&mut kernel.clone(), iter_open_fds(0, sys));
    check_sorted(&fds);
    assert!(fds.contains(&0));
    assert!(fds.contains(&fd1));
    assert!(fds.contains(&fd2));
    assert!(!fds.contains(&fd3));

    // Test handling of minfd

    fds = collect(&mut kernel.clone(), iter_open_fds(fd1, sys));
    check_sorted(&fds);
    assert!(!fds.contains(&0));
    assert!(fds.contains(&fd1));
    assert!(fds.contains(&fd2));
    assert!(!fds.contains(&fd3));

    fds = collect(&mut kernel.clone(), iter_open_fds(fd2, sys));
    check_sorted(&fds);
    assert!(!fds.contains(&0));
    assert!(!fds.contains(&fd1));
    assert!(fds.contains(&fd2));
    assert!(!fds.contains(&fd3));

    fds = collect(&mut kernel.clone(), iter_open_fds(fd3, sys));
    check_sorted(&fds);
    assert!(!fds.contains(&0));
    assert!(!fds.contains(&fd1));
    assert!(!fds.contains(&fd2));
    assert!(!fds.contains(&fd3));
}

fn iter_possible_fds_test(kernel: &Kernel, fd1: i32, fd2: i32, fd3: i32) {
    let sys = kernel.sys();
    let mut fds: Vec<i32>;

    fds = collect(&mut kernel.clone(), iter_possible_fds(-1, sys));
    check_sorted(&fds);
    assert!(!fds.contains(&-1));
    assert!(fds.contains(&fd1));
    assert!(fds.contains(&fd2));
    // Don't check for fd3 not being present because it might legitimately be
    // returned by iter_possible_fds()

    assert_eq!(Driven::new(iter_possible_fds(-1, sys)).next(&mut kernel.clone()), Some(0));

    fds = collect(&mut kernel.clone(), iter_possible_fds_threadsafe(-1, sys));
    check_sorted(&fds);
    assert!(!fds.contains(&-1));
    assert!(fds.contains(&fd1));
    assert!(fds.contains(&fd2));

    fds = collect(&mut kernel.clone(), iter_possible_fds(0, sys));
    check_sorted(&fds);
    assert!(fds.contains(&fd1));
    assert!(fds.contains(&fd2));

    // Test handling of minfd

    fds = collect(&mut kernel.clone(), iter_possible_fds(fd1, sys));
    check_sorted(&fds);
    assert!(fds.contains(&fd1));
    assert!(fds.contains(&fd2));

    fds = collect(&mut kernel.clone(), iter_possible_fds(fd2, sys));
    check_sorted(&fds);
    assert!(!fds.contains(&fd1));
    assert!(fds.contains(&fd2));

    fds = collect(&mut kernel.clone(), iter_possible_fds(fd3, sys));
    check_sorted(&fds);
    assert!(!fds.contains(&fd1));
    assert!(!fds.contains(&fd2));
}

fn close_fds_test(kernel: &Kernel, fd1: i32, fd2: i32, fd3: i32) {
    let mut k = kernel.clone();
    let mut fds: Vec<i32>;

    fds = collect(&mut k, iter_open_fds(fd1, kernel.sys()));
    check_sorted(&fds);
    assert!(fds.contains(&fd1));
    assert!(fds.contains(&fd2));
    assert!(!fds.contains(&fd3));

    // Add 0 just to check the case where keep_fds[0] < minfd
    let sys = run(&mut k, close_open_fds(fd1, &[0], kernel.sys()));

    fds = collect(&mut k, iter_open_fds(fd1, sys));
    check_sorted(&fds);
    assert!(!fds.contains(&fd1));
    assert!(!fds.contains(&fd2));
    assert!(!fds.contains(&fd3));
    assert_eq!(k.open_fds(), [0, 1, 2]);
}

fn close_fds_keep1_test(kernel: &Kernel, fd1: i32, fd2: i32, fd3: i32) {
    let mut k = kernel.clone();
    let mut fds: Vec<i32>;

    fds = collect(&mut k, iter_open_fds(fd1, kernel.sys()));
    check_sorted(&fds);
    assert!(fds.contains(&fd1));
    assert!(fds.contains(&fd2));
    assert!(!fds.contains(&fd3));

    let keep = [fd1, fd3];
    let sys = run(&mut k, close_open_fds(fd1, &keep, kernel.sys()));

    fds = collect(&mut k, iter_open_fds(fd1, sys));
    check_sorted(&fds);
    assert!(fds.contains(&fd1));
    assert!(!fds.contains(&fd2));
    assert!(!fds.contains(&fd3));
    assert_eq!(k.open_fds(), [0, 1, 2, fd1]);
}

fn close_fds_keep2_test(kernel: &Kernel, fd1: i32, fd2: i32, fd3: i32) {
    let mut k = kernel.clone();
    let mut fds: Vec<i32>;

    fds = collect(&mut k, iter_open_fds(fd1, kernel.sys()));
    check_sorted(&fds);
    assert!(fds.contains(&fd1));
    assert!(fds.contains(&fd2));
    assert!(!fds.contains(&fd3));

    let keep = [fd2, fd3];
    let sys = run(&mut k, close_open_fds(fd1, &keep, kernel.sys()));

    fds = collect(&mut k, iter_open_fds(fd1, sys));
    check_sorted(&fds);
    assert!(!fds.contains(&fd1));
    assert!(fds.contains(&fd2));
    assert!(!fds.contains(&fd3));
    assert_eq!(k.open_fds(), [0, 1, 2, fd2]);
}

fn large_open_fds_test(kernel: &Kernel, mangle_keep_fds: fn(&mut [i32])) {
    let mut k = kernel.clone();
    let mut sys = kernel.sys();
    let mut openfds = Vec::new();

    for _ in 0..150 {
        let fd = k.open_one();
        k.cloexec.insert(fd);
        openfds.push(fd);
    }

    let lowfd = openfds[0];

    let mut closedfds = Vec::new();

    // Close a few
    for &index in &[140, 110, 100, 75, 10] {
        let fd = openfds.remove(index);
        k.open.remove(&fd);
        k.cloexec.remove(&fd);
        closedfds.push(fd);
    }

    let mut cur_open_fds: Vec<i32>;

    // Check that our expectations of which should be open and which
    // should be closed are correct
    cur_open_fds = collect(&mut k, iter_open_fds(lowfd, sys));
    check_sorted(&cur_open_fds);
    for fd in openfds.iter() {
        assert!(k.cloexec.contains(fd));
        assert!(cur_open_fds.contains(fd));
    }
    for fd in closedfds.iter() {
        assert!(!cur_open_fds.contains(fd));
    }

    // Set them all as non-close-on-exec
    for fd in openfds.iter() {
        k.cloexec.remove(fd);
    }
    // Make them all close-on-exec with set_fds_cloexec()
    sys = run(&mut k, set_fds_cloexec(lowfd, &[], sys));
    // Now make sure they're all close-on-exec
    for fd in openfds.iter() {
        assert!(k.cloexec.contains(fd));
    }

    // Set them all as non-close-on-exec again
    for fd in openfds.iter() {
        k.cloexec.remove(fd);
    }
    // Make them all close-on-exec with set_fds_cloexec_threadsafe()
    sys = run(&mut k, set_fds_cloexec_threadsafe(lowfd, &[], sys));
    // Now make sure they're all close-on-exec again
    for fd in openfds.iter() {
        assert!(k.cloexec.contains(fd));
    }

    // Now, let's only keep a few file descriptors open.
    let mut extra_closedfds = openfds.to_vec();
    extra_closedfds.sort_unstable();
    openfds.clear();
    for &index in &[130, 110, 90, 89, 65, 34, 21, 3] {
        openfds.push(extra_closedfds.remove(index));
    }
    closedfds.extend_from_slice(&extra_closedfds);

    mangle_keep_fds(&mut openfds);

    // Set them all as non-close-on-exec
    for fd in openfds.iter().chain(extra_closedfds.iter()) {
        k.cloexec.remove(fd);
    }
    // Make most of them close-on-exec with set_fds_cloexec()
    sys = run(&mut k, set_fds_cloexec(lowfd, &openfds, sys));
    // Now make sure they're all close-on-exec again
    for fd in openfds.iter() {
        assert!(!k.cloexec.contains(fd));
    }
    for fd in extra_closedfds.iter() {
        assert!(k.cloexec.contains(fd));
    }

    // Set them all as non-close-on-exec
    for fd in openfds.iter().chain(extra_closedfds.iter()) {
        k.cloexec.remove(fd);
    }
    // Make most of them close-on-exec with set_fds_cloexec_threadsafe()
    sys = run(&mut k, set_fds_cloexec_threadsafe(lowfd, &openfds, sys));
    // Check that it worked properly
    for fd in openfds.iter() {
        assert!(!k.cloexec.contains(fd));
    }
    for fd in extra_closedfds.iter() {
        assert!(k.cloexec.contains(fd));
    }

    sys = run(&mut k, close_open_fds(lowfd, &openfds, sys));

    // Again, check that our expectations match reality
    cur_open_fds = collect(&mut k, iter_open_fds(lowfd, sys));
    check_sorted(&cur_open_fds);
    for fd in openfds.iter() {
        assert!(cur_open_fds.contains(fd));
    }
    for fd in closedfds.iter() {
        assert!(!cur_open_fds.contains(fd));
    }
    assert_eq!(
        cur_open_fds,
        collect(&mut k, iter_open_fds_threadsafe(lowfd, sys))
    );
    let mut kept = openfds.clone();
    kept.sort_unstable();
    assert_eq!(cur_open_fds, kept);
    assert!(k.dirs.is_empty());
}

#[test]
fn run_tests() {
    for kernel in kernels(&[0, 1, 2, 3, 4]) {
        // Two descriptors open above the standard ones, and one number that is
        // not open.
        let (fd1, fd2, fd3) = (3, 4, 5);

        iter_open_fds_test(&kernel, fd1, fd2, fd3);

        iter_possible_fds_test(&kernel, fd1, fd2, fd3);

        close_fds_test(&kernel, fd1, fd2, fd3);

        close_fds_keep1_test(&kernel, fd1, fd2, fd3);
        close_fds_keep2_test(&kernel, fd1, fd2, fd3);
    }

    for kernel in kernels(&[0, 1, 2]) {
        large_open_fds_test(&kernel, |keep_fds| keep_fds.sort_unstable());
        large_open_fds_test(&kernel, |_keep_fds| ());
        large_open_fds_test(&kernel, |keep_fds| {
            keep_fds.sort_unstable_by(|a, b| ((a + b) % 5).cmp(&3));
        });

        let mut k = kernel.clone();
        for _ in 0..5 {
            k.open_one();
        }
        let sys = run(&mut k, close_open_fds(3, &[], kernel.sys()));
        assert_eq!(collect(&mut k, iter_open_fds(0, sys)), vec![0, 1, 2]);

        let sys = run(&mut k, close_open_fds(0, &[0, 1, 2], sys));
        assert_eq!(collect(&mut k, iter_open_fds(0, sys)), vec![0, 1, 2]);

        let sys = run(&mut k, close_open_fds(-1, &[0, 1, 2], sys));
        assert_eq!(collect(&mut k, iter_open_fds(0, sys)), vec![0, 1, 2]);
    }
}

#[test]
fn run_no_fds_tests() {
    for kernel in kernels(&[0, 1, 2]) {
        let mut k = kernel.clone();

        // Close all open file descriptors
        let sys = run(&mut k, close_open_fds(0, &[], kernel.sys()));
        assert!(k.open.is_empty());

        // Create an FdIter
        let mut fditer = Driven::new(iter_open_fds(0, sys));

        // It's empty.
        assert_eq!(fditer.next(&mut k), None);

        // Now we open another file descriptor.
        assert_eq!(k.open_one(), 0);
        // A new FdIter knows about the new file descriptor...
        assert_eq!(Driven::new(iter_open_fds(0, sys)).next(&mut k.clone()), Some(0));

        // But the old one doesn't, because it's fused.
        assert_eq!(fditer.next(&mut k), None);

        // And it knows it.
        assert_eq!(fditer.iter.size_hint(), (0, Some(0)));
        assert_eq!(fditer.collect(&mut k).len(), 0);
    }
}

#[test]
fn closing_from_three_leaves_the_standard_descriptors() {
    for kernel in kernels(&[0, 1, 2, 5]) {
        let mut k = kernel.clone();
        run(&mut k, close_open_fds(3, &[], kernel.sys()));
        assert_eq!(k.open_fds(), [0, 1, 2]);
        assert!(k.dirs.is_empty());
    }
}

#[test]
fn closing_around_two_kept_descriptors() {
    for kernel in kernels(&[3, 4, 5, 6, 7, 8]) {
        for keep in [[5, 7], [7, 5]] {
            let mut k = kernel.clone();
            run(&mut k, close_open_fds(3, &keep, kernel.sys()));
            assert_eq!(k.open_fds(), [5, 7]);

            let mut k = kernel.clone();
            let mut builder = CloseFdsBuilder::new();
            builder.keep_fds(&keep).allow_filesystem(false);
            run(&mut k, builder.closefrom(3, kernel.sys()));
            assert_eq!(k.open_fds(), [5, 7]);
            assert!(!k.asked(is_listing_open));
        }
        let mut k = kernel.clone();
        let mut builder = CloseFdsBuilder::new();
        builder.keep_fds_sorted(&[5, 7]);
        run(&mut k, builder.closefrom(3, kernel.sys()));
        assert_eq!(k.open_fds(), [5, 7]);
    }
}

fn scattered(open: &[i32]) -> Vec<i32> {
    open.iter().copied().filter(|fd| fd % 7 == 3 || fd % 31 == 0 || *fd == 149).collect()
}

#[test]
fn closing_many_around_a_scattered_keep_list() {
    let open: Vec<i32> = (0..150).collect();
    let sorted = scattered(&open);
    let mut unsorted = sorted.clone();
    unsorted.reverse();
    unsorted.swap(0, 3);
    for kernel in kernels(&open) {
        for keep in [&sorted, &unsorted] {
            let mut k = kernel.clone();
            let sys = run(&mut k, close_open_fds(0, keep, kernel.sys()));
            assert_eq!(k.open_fds(), sorted);
            assert_eq!(collect(&mut k, iter_open_fds(0, sys)), sorted);
        }
        let mut k = kernel.clone();
        let mut builder = CloseFdsBuilder::new();
        builder.keep_fds_sorted(&sorted);
        let sys = run(&mut k, builder.closefrom(0, kernel.sys()));
        assert_eq!(k.open_fds(), sorted);
        assert_eq!(collect(&mut k, iter_open_fds_threadsafe(0, sys)), sorted);
    }
}

#[test]
fn nothing_open_is_enumerated_as_nothing() {
    for kernel in kernels(&[]) {
        let mut k = kernel.clone();
        let mut old = Driven::new(iter_open_fds(0, kernel.sys()));
        assert_eq!(old.next(&mut k), None);
        assert!(k.dirs.is_empty());
        assert!(k.open.is_empty());

        k.open.insert(0);
        assert_eq!(collect(&mut k.clone(), iter_open_fds(0, kernel.sys())), [0]);
        assert_eq!(old.next(&mut k), None);
        assert_eq!(old.iter.size_hint(), (0, Some(0)));
    }
}

#[test]
fn enumeration_is_ascending_and_at_or_above_the_threshold() {
    let open = [0, 1, 2, 5, 6, 9, 64, 65, 200, 1000];
    for kernel in kernels(&open) {
        for minfd in [-5, 0, 1, 3, 6, 7, 65, 201, 1001, 70000] {
            for possible in [false, true] {
                for threadsafe in [false, true] {
                    let mut k = kernel.clone();
                    let fds = collect(&mut k, iter_fds(minfd, possible, threadsafe, kernel.sys()));
                    check_sorted(&fds);
                    assert!(fds.iter().all(|fd| *fd >= minfd.max(0)));
                    let expected: Vec<i32> =
                        open.iter().copied().filter(|fd| *fd >= minfd).collect();
                    if possible {
                        assert!(expected.iter().all(|fd| fds.contains(fd)));
                    } else {
                        assert_eq!(fds, expected);
                    }
                    assert!(k.dirs.is_empty());
                    assert_eq!(k.open_fds(), open);
                }
            }
        }
    }
}

#[test]
fn a_listing_that_fails_gives_way_to_the_scan_without_gap_or_repeat() {
    let open: Vec<i32> = (0..40).filter(|fd| fd % 3 != 1).collect();
    for reads in 0..6 {
        let mut k = Kernel::new(Os::Linux, &open);
        k.reads_before_failure = Some(reads);
        let sys0 = k.sys();
        let fds = collect(&mut k, iter_open_fds(2, sys0));
        assert_eq!(fds, open.iter().copied().filter(|fd| *fd >= 2).collect::<Vec<i32>>());
        assert!(k.asked(is_listing_read));
        assert_eq!(k.count(is_listing_open), 1);
        assert_eq!(k.count(is_listing_close), 1);
        assert!(k.dirs.is_empty());
        // Only a listing that failed is followed by a scan.
        assert_eq!(k.asked(is_flags_query), reads < 4);
    }
}

#[test]
fn a_record_that_cannot_be_read_fails_the_listing() {
    for reclen in [0u16, 3, 18, 4000] {
        let mut k = Kernel::new(Os::Linux, &[0, 1, 2, 7]);
        k.corrupt_reclen = Some(reclen);
        let sys0 = k.sys();
        let fds = collect(&mut k, iter_open_fds(0, sys0));
        assert_eq!(fds, [0, 1, 2, 7]);
        assert_eq!(k.count(is_listing_close), 1);
        assert!(k.asked(is_flags_query));
    }
}

#[test]
fn the_listing_is_not_read_where_it_is_forbidden() {
    for kernel in kernels(&[0, 1, 2, 9]) {
        let mut k = kernel.clone();
        let mut builder = FdIterBuilder::new();
        builder.allow_filesystem(false);
        let fds = collect(&mut k, builder.iter_from(0, kernel.sys()));
        assert_eq!(fds, [0, 1, 2, 9]);
        assert!(!k.asked(is_listing_open));
        assert!(!k.asked(|req| matches!(req, Request::KernelRelease)));
    }
}

#[test]
fn the_listing_directory_is_skipped_and_closed_once() {
    for os in [Os::Linux, Os::MacOs, Os::FreeBsd, Os::NetBsd, Os::Solaris] {
        let mut k = Kernel::new(os, &[0, 1, 2, 4]);
        let mut iter = Driven::new(iter_open_fds(0, k.sys()));
        assert_eq!(iter.next(&mut k), Some(0));
        // The directory took the lowest free number, and is being read.
        assert!(k.open.contains(&3));
        assert_eq!(k.dirs.len(), 1);
        assert_eq!(iter.next(&mut k), Some(1));
        assert_eq!(iter.next(&mut k), Some(2));
        assert_eq!(iter.next(&mut k), Some(4));
        assert_eq!(iter.next(&mut k), None);
        assert_eq!(k.count(is_listing_close), 1);
        assert_eq!(k.open_fds(), [0, 1, 2, 4]);
    }
}

#[test]
fn an_enumeration_given_up_hands_back_its_directory() {
    let mut k = Kernel::new(Os::Linux, &[0, 1, 2, 4]);
    let mut iter = Driven::new(iter_open_fds(0, k.sys()));
    assert_eq!(iter.next(&mut k), Some(0));
    assert_eq!(iter.iter.release(), Some(3));
    assert_eq!(iter.iter.release(), None);
    assert_eq!(iter.next(&mut k), None);

    let mut fresh = iter_open_fds(0, k.sys());
    assert_eq!(fresh.release(), None);

    let mut scan = Driven::new(iter_possible_fds(0, Kernel::new(Os::Other, &[]).sys()));
    let mut other = Kernel::new(Os::Other, &[0]);
    assert_eq!(scan.next(&mut other), Some(0));
    assert_eq!(scan.iter.release(), None);
}

#[test]
fn the_scan_takes_its_bound_from_the_limit() {
    for (limit, bound) in [
        (-1i64, 1023),
        (0, 1023),
        (256, 1023),
        (1024, 1023),
        (1025, 1024),
        (4096, 4095),
        (65536, 65535),
        (65537, 65535),
        (i64::MAX, 65535),
    ] {
        let mut k = Kernel::new(Os::Other, &[0, 1, 2]);
        k.open_max = limit;
        let sys0 = k.sys();
        let fds = collect(&mut k, iter_possible_fds(0, sys0));
        assert_eq!(fds.len(), bound as usize + 1);
        assert_eq!(fds.last(), Some(&bound));
        assert_eq!(k.count(|req| matches!(req, Request::OpenMax)), 1);
        assert_eq!(close_fds::iterfds::fditer::clamp_open_max(limit), bound);
    }
}

#[test]
fn the_bound_is_asked_for_once() {
    let mut k = Kernel::new(Os::Other, &[0, 1, 2, 700]);
    let mut iter = Driven::new(iter_open_fds(0, k.sys()));
    assert_eq!(iter.iter.size_hint(), (0, Some(1 << 31)));
    assert_eq!(iter.iter.count(), None);
    assert_eq!(iter.next(&mut k), Some(0));
    assert_eq!(iter.iter.size_hint(), (0, Some(1023)));
    k.open_max = 5000;
    let rest = iter.collect(&mut k);
    assert_eq!(rest, [1, 2, 700]);
    assert_eq!(k.count(|req| matches!(req, Request::OpenMax)), 1);
}

#[test]
fn size_hint_and_count_of_a_scan_that_hands_out_unseen() {
    let mut k = Kernel::new(Os::Other, &[0, 1, 2]);
    let mut iter = Driven::new(iter_possible_fds(1000, k.sys()));
    assert!(iter.iter.is_possible_iter());
    assert_eq!(iter.iter.count(), None);
    assert_eq!(iter.next(&mut k), Some(1000));
    assert_eq!(iter.iter.size_hint(), (23, Some(23)));
    assert_eq!(iter.iter.count(), Some(23));
    assert_eq!(iter.collect(&mut k).len(), 23);

    let open = Driven::new(iter_open_fds(1000, k.sys()));
    assert!(!open.iter.is_possible_iter());
}

#[test]
fn netbsd_asks_for_the_highest_descriptor() {
    let mut k = Kernel::new(Os::NetBsd, &[0, 1, 2, 40]);
    k.paths.clear();
    let sys0 = k.sys();
    let fds = collect(&mut k, iter_possible_fds(0, sys0));
    assert_eq!(fds, (0..=40).collect::<Vec<i32>>());
    assert!(!k.asked(|req| matches!(req, Request::OpenMax)));

    let mut none = Kernel::new(Os::NetBsd, &[]);
    none.paths.clear();
    let sys0 = none.sys();
    assert_eq!(collect(&mut none, iter_possible_fds(0, sys0)), []);
    assert!(!none.asked(|req| matches!(req, Request::OpenMax)));
}

#[test]
fn the_highest_descriptor_query_may_fail() {
    let sys = Sys::new(Os::NetBsd, bsd_layout());
    let mut builder = FdIterBuilder::new();
    builder.allow_filesystem(false).possible(true);

    let mut iter = builder.iter_from(0, sys);
    assert!(matches!(iter.next(Reply::Nothing), Poll::Pending(Request::MaxFd)));
    // -1 with an error number is a failure: the limit is asked for.
    assert!(matches!(iter.next(Reply::Pair(-1, 9)), Poll::Pending(Request::OpenMax)));
    assert!(matches!(iter.next(Reply::Value(2000)), Poll::Ready(Some(0))));
    assert_eq!(iter.size_hint(), (1999, Some(1999)));

    let mut iter = builder.iter_from(0, sys);
    assert!(matches!(iter.next(Reply::Nothing), Poll::Pending(Request::MaxFd)));
    // -1 without one says that nothing is open.
    assert!(matches!(iter.next(Reply::Pair(-1, 0)), Poll::Ready(None)));
    assert_eq!(iter.size_hint(), (0, Some(0)));

    let mut iter = builder.iter_from(0, sys);
    assert!(matches!(iter.next(Reply::Nothing), Poll::Pending(Request::MaxFd)));
    assert!(matches!(iter.next(Reply::Failed), Poll::Pending(Request::OpenMax)));
    assert!(matches!(iter.next(Reply::Failed), Poll::Ready(Some(0))));
    assert_eq!(iter.size_hint(), (1023, Some(1023)));
}

#[test]
fn counting_finds_the_highest_descriptor() {
    for os in [Os::FreeBsd, Os::OpenBsd] {
        let mut k = Kernel::new(os, &[0, 1, 2, 4, 5]);
        k.paths.clear();
        let sys0 = k.sys();
        let fds = collect(&mut k, iter_possible_fds(0, sys0));
        assert_eq!(fds, [0, 1, 2, 3, 4, 5]);
        assert_eq!(k.count(|req| matches!(req, Request::CountFds)), 1);
        assert!(!k.asked(|req| matches!(req, Request::OpenMax)));
        // The numbers up to the highest descriptor were looked at, no more.
        assert_eq!(k.count(is_flags_query), 6);

        // Where other threads are reckoned with, nothing is counted.
        let mut k = Kernel::new(os, &[0, 1, 2, 4, 5]);
        k.paths.clear();
        let sys0 = k.sys();
        let fds = collect(&mut k, iter_possible_fds_threadsafe(0, sys0));
        assert_eq!(fds.len(), 1024);
        assert!(!k.asked(|req| matches!(req, Request::CountFds)));

        // Descriptors that lie too far apart are not found by counting.
        let mut k = Kernel::new(os, &[0, 1, 2, 50, 100]);
        k.paths.clear();
        let sys0 = k.sys();
        let fds = collect(&mut k, iter_open_fds(0, sys0));
        assert_eq!(fds, [0, 1, 2, 50, 100]);
        assert_eq!(k.count(|req| matches!(req, Request::OpenMax)), 1);

        // Nothing open: nothing to scan.
        let mut k = Kernel::new(os, &[]);
        k.paths.clear();
        let sys0 = k.sys();
        assert_eq!(collect(&mut k, iter_possible_fds(0, sys0)), []);
        assert!(!k.asked(is_flags_query));

        // A hundred descriptors or more are not counted through.
        let many: Vec<i32> = (0..100).collect();
        let mut k = Kernel::new(os, &many);
        k.paths.clear();
        let sys0 = k.sys();
        assert_eq!(collect(&mut k, iter_open_fds(0, sys0)), many);
        assert_eq!(k.count(|req| matches!(req, Request::OpenMax)), 1);
    }
}

#[test]
fn a_count_that_fails_or_makes_no_sense_is_not_used() {
    let sys = Sys::new(Os::OpenBsd, linux_layout());
    for answer in [Answer::Failed, Answer::Value(-1), Answer::Value(100), Answer::Nothing] {
        let mut iter = iter_possible_fds(0, sys);
        assert!(matches!(iter.next(Reply::Nothing), Poll::Pending(Request::CountFds)));
        assert!(matches!(iter.next(answer.reply()), Poll::Pending(Request::OpenMax)));
    }
    let mut iter = iter_possible_fds(0, sys);
    assert!(matches!(iter.next(Reply::Nothing), Poll::Pending(Request::CountFds)));
    assert!(matches!(iter.next(Reply::Value(99)), Poll::Pending(Request::GetFlags { fd: 0 })));
    // Of two descriptors, the second one found is the highest.
    let mut iter = iter_possible_fds(0, sys);
    assert!(matches!(iter.next(Reply::Nothing), Poll::Pending(Request::CountFds)));
    assert!(matches!(iter.next(Reply::Value(2)), Poll::Pending(Request::GetFlags { fd: 0 })));
    assert!(matches!(iter.next(Reply::Value(-1)), Poll::Pending(Request::GetFlags { fd: 1 })));
    assert!(matches!(iter.next(Reply::Value(0)), Poll::Pending(Request::GetFlags { fd: 2 })));
    assert!(matches!(iter.next(Reply::Value(1)), Poll::Ready(Some(0))));
    assert_eq!(iter.size_hint(), (2, Some(2)));
    // Two descriptors that are not among the first four numbers are not found.
    let mut iter = iter_possible_fds(0, sys);
    assert!(matches!(iter.next(Reply::Nothing), Poll::Pending(Request::CountFds)));
    assert!(matches!(iter.next(Reply::Value(2)), Poll::Pending(Request::GetFlags { fd: 0 })));
    assert!(matches!(iter.next(Reply::Value(0)), Poll::Pending(Request::GetFlags { fd: 1 })));
    assert!(matches!(iter.next(Reply::Value(-1)), Poll::Pending(Request::GetFlags { fd: 2 })));
    assert!(matches!(iter.next(Reply::Value(-1)), Poll::Pending(Request::GetFlags { fd: 3 })));
    assert!(matches!(iter.next(Reply::Value(-1)), Poll::Pending(Request::OpenMax)));
}

#[test]
fn the_wrong_listing_is_not_opened() {
    let mut k = Kernel::new(Os::Linux, &[0, 1, 2, 9]);
    k.release = b"4.4.0-19041-Microsoft\0".to_vec();
    let mut iter = Driven::new(iter_open_fds(0, k.sys()));
    assert_eq!(iter.iter.sys().wsl1, None);
    assert_eq!(iter.next(&mut k), Some(0));
    assert_eq!(iter.iter.sys().wsl1, Some(true));
    let sys = iter.iter.sys();
    assert_eq!(iter.collect(&mut k), [1, 2, 9]);
    assert!(!k.asked(is_listing_open));
    assert_eq!(k.count(|req| matches!(req, Request::KernelRelease)), 1);

    // What was learnt is not asked again.
    assert_eq!(collect(&mut k, iter_open_fds(0, sys)), [0, 1, 2, 9]);
    assert_eq!(k.count(|req| matches!(req, Request::KernelRelease)), 1);
    assert!(!k.asked(is_listing_open));

    let mut k = Kernel::new(Os::Linux, &[0, 1, 2, 9]);
    let mut iter = Driven::new(iter_open_fds(0, k.sys()));
    assert_eq!(iter.next(&mut k), Some(0));
    let sys = iter.iter.sys();
    assert_eq!(sys.wsl1, Some(false));
    assert_eq!(iter.collect(&mut k), [1, 2, 9]);
    assert_eq!(collect(&mut k, iter_open_fds(0, sys)), [0, 1, 2, 9]);
    assert_eq!(k.count(|req| matches!(req, Request::KernelRelease)), 1);
    assert_eq!(k.count(is_listing_open), 2);

    // Only one kernel family has that flavour.
    let mut k = Kernel::new(Os::NetBsd, &[0]);
    k.release = b"Microsoft\0".to_vec();
    let sys0 = k.sys();
    assert_eq!(collect(&mut k, iter_open_fds(0, sys0)), [0]);
    assert!(!k.asked(|req| matches!(req, Request::KernelRelease)));
    assert!(k.asked(is_listing_open));
}

#[test]
fn a_static_directory_is_not_trusted() {
    for devices in [Some((7, 7)), None] {
        let mut k = Kernel::new(Os::FreeBsd, &[0, 1, 2, 9]);
        k.devices = devices;
        let sys0 = k.sys();
        let fds = collect(&mut k, iter_open_fds(0, sys0));
        assert_eq!(fds, [0, 1, 2, 9]);
        assert_eq!(k.count(is_listing_open), 1);
        assert_eq!(k.count(is_listing_close), 1);
        assert!(!k.asked(is_listing_read));
        assert!(k.dirs.is_empty());
    }
    let mut k = Kernel::new(Os::FreeBsd, &[0, 1, 2, 9]);
    let sys0 = k.sys();
    assert_eq!(collect(&mut k, iter_open_fds(0, sys0)), [0, 1, 2, 9]);
    assert!(k.asked(is_listing_read));
    assert_eq!(k.count(|req| matches!(req, Request::CompareDevices { dirfd: 3 })), 1);

    // No other family compares devices.
    let mut k = Kernel::new(Os::MacOs, &[0, 1, 2, 9]);
    k.devices = Some((7, 7));
    let sys0 = k.sys();
    assert_eq!(collect(&mut k, iter_open_fds(0, sys0)), [0, 1, 2, 9]);
    assert!(!k.asked(|req| matches!(req, Request::CompareDevices { .. })));
    assert!(k.asked(is_listing_read));
}

#[test]
fn each_family_opens_its_own_listing() {
    for (os, first, second, directory) in [
        (Os::Linux, Some(ListingPath::ProcSelfFd), None, true),
        (Os::NetBsd, Some(ListingPath::ProcSelfFd), None, true),
        (Os::MacOs, Some(ListingPath::DevFd), None, true),
        (Os::Ios, Some(ListingPath::DevFd), None, true),
        (Os::FreeBsd, Some(ListingPath::DevFd), None, true),
        (Os::Solaris, Some(ListingPath::DevFd), Some(ListingPath::ProcSelfFd), false),
        (Os::Illumos, Some(ListingPath::DevFd), Some(ListingPath::ProcSelfFd), false),
        (Os::OpenBsd, None, None, true),
        (Os::DragonFly, None, None, true),
        (Os::Other, None, None, true),
    ] {
        assert_eq!(os.listing_path(), first);
        assert_eq!(os.second_listing_path(), second);
        assert_eq!(os.listing_is_directory(), directory);

        let mut k = Kernel::new(os, &[0, 1, 2, 9]);
        k.paths.clear();
        let sys0 = k.sys();
        assert_eq!(collect(&mut k, iter_open_fds(0, sys0)), [0, 1, 2, 9]);
        let opens: Vec<Request> =
            k.calls.iter().copied().filter(|req| is_listing_open(req)).collect();
        let mut expected: Vec<Request> = Vec::new();
        for path in [first, second].into_iter().flatten() {
            expected.push(Request::OpenListing { path, directory });
        }
        assert_eq!(opens, expected);

        if let Some(second) = second {
            let mut k = Kernel::new(os, &[0, 1, 2, 9]);
            k.paths = vec![second];
            let sys0 = k.sys();
            assert_eq!(collect(&mut k, iter_open_fds(0, sys0)), [0, 1, 2, 9]);
            assert_eq!(k.count(is_listing_open), 2);
            assert!(k.asked(is_listing_read));
            assert!(!k.asked(is_flags_query));
        }
    }
}

#[test]
fn a_listing_out_of_order_is_handed_out_as_it_comes() {
    let mut k = Kernel::new(Os::MacOs, &[0, 1, 2, 5]);
    k.backwards = true;
    let sys0 = k.sys();
    let fds = collect(&mut k, iter_open_fds(1, sys0));
    assert_eq!(fds, [5, 2, 1]);
}

#[test]
fn what_each_family_can_do_in_bulk() {
    for os in ALL_OS {
        assert_eq!(
            os.has_closefrom(),
            matches!(os, Os::FreeBsd | Os::NetBsd | Os::OpenBsd | Os::DragonFly)
        );
        assert_eq!(os.has_count_query(), matches!(os, Os::FreeBsd | Os::OpenBsd));
        assert_eq!(os.has_maxfd_query(), matches!(os, Os::NetBsd));
        assert_eq!(os.listing_needs_release(), matches!(os, Os::Linux));
        assert_eq!(os.listing_needs_device_check(), matches!(os, Os::FreeBsd));
        let closing = match os {
            Os::Linux => RangeSupport::Optimistic,
            Os::FreeBsd => RangeSupport::Probed,
            _ => RangeSupport::Never,
        };
        let marking = match os {
            Os::Linux => RangeSupport::Optimistic,
            _ => RangeSupport::Never,
        };
        assert_eq!(os.close_range(), closing);
        assert_eq!(os.cloexec_range(), marking);
        let sys = Sys::new(os, linux_layout());
        assert_eq!(sys.close_range, Capability::initial(closing));
        assert_eq!(sys.cloexec_range, Capability::initial(marking));
        assert_eq!(sys.wsl1, None);
    }
    assert_eq!(Capability::initial(RangeSupport::Never), Capability::Unavailable);
    assert_eq!(Capability::initial(RangeSupport::Optimistic), Capability::Available);
    assert_eq!(Capability::initial(RangeSupport::Probed), Capability::Unknown);
}

#[test]
fn one_call_closes_everything_where_nothing_is_kept_above() {
    let mut k = Kernel::new(Os::Linux, &[0, 1, 2, 5, 9]);
    let sys0 = k.sys();
    run(&mut k, close_open_fds(3, &[0, 1], sys0));
    assert_eq!(k.calls, [Request::CloseRange { low: 3, high: u32::MAX }]);
    assert_eq!(k.open_fds(), [0, 1, 2]);

    for os in [Os::FreeBsd, Os::NetBsd, Os::OpenBsd, Os::DragonFly] {
        let mut k = Kernel::new(os, &[0, 1, 2, 5, 9]);
        let sys0 = k.sys();
        run(&mut k, close_open_fds(3, &[0, 1], sys0));
        assert_eq!(k.calls, [Request::CloseFrom { fd: 3 }]);
        assert_eq!(k.open_fds(), [0, 1, 2]);
    }

    let mut k = Kernel::new(Os::Linux, &[0, 1, 2, 5, 9]);
    let sys0 = k.sys();
    run(&mut k, set_fds_cloexec(-7, &[], sys0));
    assert_eq!(k.calls, [Request::CloexecRange { low: 0, high: u32::MAX }]);
    assert_eq!(k.cloexec, k.open);
}

#[test]
fn one_call_for_each_gap_of_a_sorted_keep_list() {
    let open: Vec<i32> = (0..30).collect();
    let keep = [3, 4, 5, 8, 10, 11, 20];
    for os in [Os::Linux, Os::FreeBsd] {
        let mut k = Kernel::new(os, &open);
        let sys0 = k.sys();
        let sys = run(&mut k, close_open_fds(3, &keep, sys0));
        let mut expected = vec![
            Request::CloseRange { low: 6, high: 7 },
            Request::CloseRange { low: 9, high: 9 },
            Request::CloseRange { low: 12, high: 19 },
            Request::CloseRange { low: 21, high: i32::MAX as u32 },
        ];
        if os == Os::FreeBsd {
            expected.insert(0, Request::OsRelDate);
        }
        assert_eq!(k.calls, expected);
        assert_eq!(k.open_fds(), [0, 1, 2, 3, 4, 5, 8, 10, 11, 20]);
        assert_eq!(sys.close_range, Capability::Available);

        // What the kernel was asked once is not asked again.
        k.calls.clear();
        run(&mut k, close_open_fds(3, &keep, sys));
        assert!(!k.asked(|req| matches!(req, Request::OsRelDate)));
        assert_eq!(k.count(is_range_call), 4);
    }

    let mut k = Kernel::new(Os::Linux, &open);
    let sys0 = k.sys();
    run(&mut k, set_fds_cloexec(3, &keep, sys0));
    assert_eq!(
        k.calls,
        [
            Request::CloexecRange { low: 6, high: 7 },
            Request::CloexecRange { low: 9, high: 9 },
            Request::CloexecRange { low: 12, high: 19 },
            Request::CloexecRange { low: 21, high: i32::MAX as u32 },
        ]
    );
    let marked: Vec<i32> = k.cloexec.iter().copied().collect();
    assert_eq!(marked, (6..30).filter(|fd| !keep.contains(fd)).collect::<Vec<i32>>());
}

#[test]
fn a_range_call_that_fails_is_given_up_for_good() {
    let open: Vec<i32> = (0..12).collect();
    let mut k = Kernel::new(Os::Linux, &open);
    k.close_range = false;
    let sys0 = k.sys();
    let sys = run(&mut k, close_open_fds(3, &[5, 7], sys0));
    assert_eq!(k.open_fds(), [0, 1, 2, 5, 7]);
    assert_eq!(k.count(is_range_call), 1);
    assert_eq!(sys.close_range, Capability::Unavailable);
    assert_eq!(sys.cloexec_range, Capability::Available);
    assert!(only_grew(k.sys(), sys));

    let mut k = Kernel::new(Os::Linux, &open);
    k.close_range = false;
    run(&mut k, close_open_fds(3, &[5, 7], sys));
    assert_eq!(k.open_fds(), [0, 1, 2, 5, 7]);
    assert!(!k.asked(is_range_call));

    let mut k = Kernel::new(Os::Linux, &open);
    k.cloexec_range = false;
    let sys0 = k.sys();
    let sys = run(&mut k, set_fds_cloexec(3, &[5, 7], sys0));
    assert_eq!(k.count(is_range_call), 1);
    assert_eq!(sys.cloexec_range, Capability::Unavailable);
    assert_eq!(sys.close_range, Capability::Available);
    let marked: Vec<i32> = k.cloexec.iter().copied().collect();
    assert_eq!(marked, [3, 4, 6, 8, 9, 10, 11]);
}

#[test]
fn a_gap_call_that_fails_midway_falls_back_on_the_enumeration() {
    let open: Vec<i32> = (0..12).collect();
    let mut sweep = close_open_fds(3, &[5, 7], Sys::new(Os::Linux, linux_layout()));
    let mut k = Kernel::new(Os::Linux, &open);
    assert_eq!(sweep.resume(Reply::Nothing), Poll::Pending(Request::CloseRange { low: 3, high: 4 }));
    k.perform(Request::CloseRange { low: 3, high: 4 });
    assert_eq!(sweep.resume(Reply::Value(0)), Poll::Pending(Request::CloseRange { low: 6, high: 6 }));
    // The second call fails: the rest is done descriptor by descriptor.
    assert_eq!(sweep.resume(Reply::Value(-1)), Poll::Pending(Request::Proceed));
    assert_eq!(sweep.sys().close_range, Capability::Unavailable);
    run(&mut k, sweep);
    assert_eq!(k.open_fds(), [0, 1, 2, 5, 7]);
    assert!(!k.calls[1..].iter().any(is_range_call));
}

#[test]
fn the_release_date_decides_on_ranges() {
    let open: Vec<i32> = (0..12).collect();
    for (date, known) in [
        (Some(1202000), Capability::Available),
        (Some(1400000), Capability::Available),
        (Some(1201999), Capability::Unavailable),
        (Some(0), Capability::Unavailable),
        (None, Capability::Unavailable),
    ] {
        let mut k = Kernel::new(Os::FreeBsd, &open);
        k.osreldate = date;
        k.close_range = known == Capability::Available;
        let sys0 = k.sys();
        let sys = run(&mut k, close_open_fds(3, &[5, 7], sys0));
        assert_eq!(k.open_fds(), [0, 1, 2, 5, 7]);
        assert_eq!(sys.close_range, known);
        assert_eq!(k.count(|req| matches!(req, Request::OsRelDate)), 1);
        assert_eq!(k.asked(is_range_call), known == Capability::Available);
        assert!(only_grew(k.sys(), sys));

        let reply = match date {
            Some(date) => Answer::Value(date),
            None => Answer::Failed,
        };
        assert_eq!(close::check_has_close_range(reply.reply()), known);
    }
    // A call on a range that fails there is not taken as a sign of anything.
    let mut k = Kernel::new(Os::FreeBsd, &open);
    k.close_range = false;
    let sys0 = k.sys();
    let sys = run(&mut k, close_open_fds(3, &[5, 7], sys0));
    assert_eq!(k.open_fds(), [0, 1, 2, 5, 7]);
    assert_eq!(sys.close_range, Capability::Available);
}

#[test]
fn an_unsorted_keep_list_is_searched() {
    let open: Vec<i32> = (0..12).collect();
    for kernel in kernels(&open) {
        let mut k = kernel.clone();
        run(&mut k, close_open_fds(3, &[7, 5, 7, 1], kernel.sys()));
        assert_eq!(k.open_fds(), [0, 1, 2, 5, 7]);
        // Gaps are worked on only with a list in ascending order.
        assert!(k.count(is_range_call) <= 1);
    }
}

#[test]
fn above_the_kept_descriptors_the_rest_goes_in_one_call() {
    let open: Vec<i32> = (0..40).collect();
    // An unsorted list: no gaps, so the descriptors are enumerated.
    let keep = [7, 5];
    let mut k = Kernel::new(Os::Linux, &open);
    let sys0 = k.sys();
    run(&mut k, close_open_fds(3, &keep, sys0));
    assert_eq!(k.open_fds(), [0, 1, 2, 5, 7]);
    assert_eq!(k.count(is_single_close), 3);
    assert_eq!(k.count(is_range_call), 1);
    assert!(k.calls.contains(&Request::CloseRange { low: 8, high: u32::MAX }));
    assert_eq!(k.count(is_listing_open), 1);
    assert_eq!(k.count(is_listing_close), 1);

    for os in [Os::FreeBsd, Os::NetBsd, Os::OpenBsd, Os::DragonFly] {
        let mut k = Kernel::new(os, &open);
        let sys0 = k.sys();
        run(&mut k, close_open_fds(3, &keep, sys0));
        assert_eq!(k.open_fds(), [0, 1, 2, 5, 7]);
        assert_eq!(k.count(is_closefrom), 1);
        assert_eq!(k.calls.last(), Some(&Request::CloseFrom { fd: 8 }));
        assert_eq!(k.count(is_listing_open), k.count(is_listing_close));
        assert!(!k.asked(|req| matches!(req, Request::CountFds)));
        assert!(k.dirs.is_empty());
    }

    // Where the kernel has no such call, each one is closed.
    let mut k = Kernel::new(Os::MacOs, &open);
    let sys0 = k.sys();
    run(&mut k, close_open_fds(3, &keep, sys0));
    assert_eq!(k.open_fds(), [0, 1, 2, 5, 7]);
    assert_eq!(k.count(is_single_close), 35);
    assert!(!k.asked(is_range_call));

    // Where it fails, it is tried once.
    let mut k = Kernel::new(Os::Linux, &open);
    k.close_range = false;
    k.paths.clear();
    let sys0 = k.sys();
    let sys = run(&mut k, close_open_fds(3, &keep, sys0));
    assert_eq!(k.open_fds(), [0, 1, 2, 5, 7]);
    assert_eq!(k.count(is_range_call), 1);
    assert_eq!(sys.close_range, Capability::Unavailable);
    // Every number up to the bound of the scan was closed, open or not.
    assert_eq!(k.count(is_single_close), 1024 - 3 - 2);
}

#[test]
fn marking_reads_the_flags_and_writes_them_where_needed() {
    let mut k = Kernel::new(Os::MacOs, &[0, 1, 2, 3, 4, 5, 6]);
    k.cloexec.insert(4);
    k.paths.clear();
    k.open_max = 8;
    let sys0 = k.sys();
    run(&mut k, set_fds_cloexec_generic(3, &[5], false, sys0));
    let marked: Vec<i32> = k.cloexec.iter().copied().collect();
    assert_eq!(marked, [3, 4, 6]);
    let writes: Vec<Request> = k
        .calls
        .iter()
        .copied()
        .filter(|req| matches!(req, Request::SetFlags { .. }))
        .collect();
    assert_eq!(
        writes,
        [Request::SetFlags { fd: 3, flags: 1 }, Request::SetFlags { fd: 6, flags: 1 }]
    );
    assert!(!k.asked(is_single_close));
    assert_eq!(k.open_fds(), [0, 1, 2, 3, 4, 5, 6]);

    // Other flags stay as they are.
    let sys = Sys::new(Os::MacOs, bsd_layout());
    let mut builder = CloseFdsBuilder::new();
    builder.allow_filesystem(false);
    let mut sweep = builder.cloexecfrom(3, sys);
    assert_eq!(sweep.resume(Reply::Nothing), Poll::Pending(Request::Proceed));
    assert_eq!(sweep.resume(Reply::Nothing), Poll::Pending(Request::OpenMax));
    assert_eq!(sweep.resume(Reply::Value(1)), Poll::Pending(Request::GetFlags { fd: 3 }));
    assert_eq!(
        sweep.resume(Reply::Value(6)),
        Poll::Pending(Request::SetFlags { fd: 3, flags: 7 })
    );
    assert_eq!(sweep.resume(Reply::Value(0)), Poll::Pending(Request::Proceed));
    assert_eq!(sweep.resume(Reply::Nothing), Poll::Pending(Request::GetFlags { fd: 4 }));
    assert_eq!(sweep.resume(Reply::Value(7)), Poll::Pending(Request::Proceed));
    assert_eq!(sweep.resume(Reply::Nothing), Poll::Pending(Request::GetFlags { fd: 5 }));
    assert_eq!(sweep.resume(Reply::Failed), Poll::Pending(Request::Proceed));
}

#[test]
fn marking_with_other_threads_in_mind_does_not_count() {
    let open = [0, 1, 2, 3, 4];
    let mut k = Kernel::new(Os::OpenBsd, &open);
    let sys0 = k.sys();
    run(&mut k, set_fds_cloexec(3, &[4, 3, 4], sys0));
    assert!(k.asked(|req| matches!(req, Request::CountFds)));
    assert!(k.cloexec.is_empty());

    let mut k = Kernel::new(Os::OpenBsd, &open);
    let sys0 = k.sys();
    run(&mut k, set_fds_cloexec_threadsafe(0, &[4, 3, 4], sys0));
    assert!(!k.asked(|req| matches!(req, Request::CountFds)));
    let marked: Vec<i32> = k.cloexec.iter().copied().collect();
    assert_eq!(marked, [0, 1, 2]);

    let mut k = Kernel::new(Os::OpenBsd, &open);
    let sys0 = k.sys();
    run(&mut k, set_fds_cloexec_generic(0, &[4, 3, 4], true, sys0));
    assert!(!k.asked(|req| matches!(req, Request::CountFds)));

    let mut k = Kernel::new(Os::OpenBsd, &open);
    let mut builder = CloseFdsBuilder::new();
    builder.keep_fds(&[4, 3, 4]).threadsafe(true);
    let sys0 = k.sys();
    run(&mut k, builder.cloexecfrom(0, sys0));
    assert!(!k.asked(|req| matches!(req, Request::CountFds)));
}

#[test]
fn a_second_sweep_changes_nothing() {
    let open: Vec<i32> = (0..60).filter(|fd| fd % 4 != 1).collect();
    let keep = [40, 3, 22, 23, 58];
    for kernel in kernels(&open) {
        let mut k = kernel.clone();
        let sys = run(&mut k, close_open_fds(2, &keep, kernel.sys()));
        let once = k.open_fds();
        assert_eq!(once, [0, 3, 22, 23, 40, 58]);
        let sys = run(&mut k, close_open_fds(2, &keep, sys));
        assert_eq!(k.open_fds(), once);
        run(&mut k, close_open_fds(2, &keep, sys));
        assert_eq!(k.open_fds(), once);

        let mut k = kernel.clone();
        let sys = run(&mut k, set_fds_cloexec(2, &keep, kernel.sys()));
        let once = k.cloexec.clone();
        run(&mut k, set_fds_cloexec(2, &keep, sys));
        assert_eq!(k.cloexec, once);
        assert_eq!(k.open_fds(), open);
    }
}

#[test]
fn a_sorted_list_and_the_same_list_unsorted_leave_the_same() {
    let open: Vec<i32> = (0..80).collect();
    let sorted = [3, 4, 17, 18, 19, 30, 79];
    let unsorted = [79, 17, 4, 30, 19, 3, 18, 17];
    for kernel in kernels(&open) {
        let mut a = kernel.clone();
        let mut b = kernel.clone();
        let mut c = kernel.clone();
        run(&mut a, close_open_fds(1, &sorted, kernel.sys()));
        run(&mut b, close_open_fds(1, &unsorted, kernel.sys()));
        let mut builder = CloseFdsBuilder::new();
        builder.keep_fds_sorted(&sorted);
        run(&mut c, builder.closefrom(1, kernel.sys()));
        assert_eq!(a.open_fds(), b.open_fds());
        assert_eq!(a.open_fds(), c.open_fds());
        assert_eq!(a.open_fds(), [0, 3, 4, 17, 18, 19, 30, 79]);

        let mut a = kernel.clone();
        let mut b = kernel.clone();
        run(&mut a, set_fds_cloexec(1, &sorted, kernel.sys()));
        run(&mut b, set_fds_cloexec(1, &unsorted, kernel.sys()));
        assert_eq!(a.cloexec, b.cloexec);
        assert_eq!(a.cloexec.len(), 72);
    }
}

#[test]
fn every_way_through_a_sweep_leaves_the_same() {
    let open: Vec<i32> = (0..50).filter(|fd| fd % 5 != 4).collect();
    let keep = [6, 7, 20, 33];
    for minfd in [-3, 0, 6, 8, 21, 34, 60] {
        let mut closed: Vec<Vec<i32>> = Vec::new();
        let mut marked: Vec<BTreeSet<i32>> = Vec::new();
        for kernel in kernels(&open) {
            for fs in [false, true] {
                let mut builder = CloseFdsBuilder::new();
                builder.keep_fds(&keep).allow_filesystem(fs);
                let mut k = kernel.clone();
                run(&mut k, builder.closefrom(minfd, kernel.sys()));
                closed.push(k.open_fds());
                assert!(k.dirs.is_empty());
                let mut k = kernel.clone();
                run(&mut k, builder.cloexecfrom(minfd, kernel.sys()));
                marked.push(k.cloexec.clone());
                assert_eq!(k.open_fds(), open);
            }
        }
        let left: Vec<i32> =
            open.iter().copied().filter(|fd| *fd < minfd || keep.contains(fd)).collect();
        assert!(closed.iter().all(|fds| *fds == left));
        let gone: BTreeSet<i32> =
            open.iter().copied().filter(|fd| *fd >= minfd && !keep.contains(fd)).collect();
        assert!(marked.iter().all(|fds| *fds == gone));
    }
}

#[test]
fn a_keep_list_with_the_highest_number_is_no_trouble() {
    let open = [0, 1, 2, 3, 9];
    for kernel in kernels(&open) {
        let mut k = kernel.clone();
        run(&mut k, close_open_fds(1, &[2, i32::MAX], kernel.sys()));
        assert_eq!(k.open_fds(), [0, 2]);
        let mut k = kernel.clone();
        run(&mut k, close_open_fds(i32::MAX, &[i32::MAX], kernel.sys()));
        assert_eq!(k.open_fds(), open);
        let mut k = kernel.clone();
        run(&mut k, close_open_fds(1, &[i32::MIN, -4, 3], kernel.sys()));
        assert_eq!(k.open_fds(), [0, 3]);
    }
}

#[test]
fn probes_ask_what_the_family_leaves_open() {
    let linux = Sys::new(Os::Linux, linux_layout());
    assert_eq!(
        probe(linux),
        (None, Some(Request::CloexecRange { low: u32::MAX, high: u32::MAX }))
    );
    assert_eq!(close::probe(linux), None);
    assert_eq!(
        cloexec::probe(linux),
        Some(Request::CloexecRange { low: u32::MAX, high: u32::MAX })
    );
    let known = probed(linux, Reply::Nothing, Reply::Value(0));
    assert_eq!(known.cloexec_range, Capability::Available);
    assert_eq!(known.close_range, Capability::Available);
    let known = probed(linux, Reply::Nothing, Reply::Value(-1));
    assert_eq!(known.cloexec_range, Capability::Unavailable);
    assert_eq!(known.close_range, Capability::Available);
    assert_eq!(probe(known), (None, None));
    assert_eq!(
        probed(known, Reply::Value(0), Reply::Value(0)).cloexec_range,
        Capability::Unavailable
    );
    assert_eq!(cloexec::probed(linux, Reply::Failed).cloexec_range, Capability::Unavailable);

    let freebsd = Sys::new(Os::FreeBsd, bsd_layout());
    assert_eq!(probe(freebsd), (Some(Request::OsRelDate), None));
    let known = probed(freebsd, Reply::Value(1202000), Reply::Nothing);
    assert_eq!(known.close_range, Capability::Available);
    assert_eq!(known.cloexec_range, Capability::Unavailable);
    assert_eq!(probe(known), (None, None));
    assert_eq!(probed(known, Reply::Value(1), Reply::Nothing).close_range, Capability::Available);
    let known = probed(freebsd, Reply::Value(1201999), Reply::Nothing);
    assert_eq!(known.close_range, Capability::Unavailable);
    assert_eq!(close::probed(freebsd, Reply::Failed).close_range, Capability::Unavailable);

    for os in [Os::MacOs, Os::Ios, Os::NetBsd, Os::OpenBsd, Os::DragonFly, Os::Solaris, Os::Other] {
        let sys = Sys::new(os, linux_layout());
        assert_eq!(probe(sys), (None, None));
        let known = probed(sys, Reply::Value(0), Reply::Value(0));
        assert_eq!(known.close_range, Capability::Unavailable);
        assert_eq!(known.cloexec_range, Capability::Unavailable);
    }

    // A sweep after a probe that failed goes straight to the enumeration.
    let mut k = Kernel::new(Os::Linux, &[0, 1, 2, 5]);
    k.cloexec_range = false;
    let (_, ask) = probe(k.sys());
    let answer = k.perform(ask.unwrap());
    let sys = probed(k.sys(), Reply::Nothing, answer.reply());
    k.calls.clear();
    run(&mut k, set_fds_cloexec(3, &[], sys));
    assert!(!k.asked(is_range_call));
    assert!(k.cloexec.contains(&5));
}

#[test]
fn a_sweep_that_is_done_stays_done() {
    let mut sweep = close_open_fds(3, &[], Sys::new(Os::NetBsd, bsd_layout()));
    assert!(!sweep.is_done());
    assert_eq!(sweep.resume(Reply::Nothing), Poll::Pending(Request::CloseFrom { fd: 3 }));
    assert!(!sweep.is_done());
    assert_eq!(sweep.resume(Reply::Nothing), Poll::Ready(()));
    assert!(sweep.is_done());
    assert_eq!(sweep.resume(Reply::Value(-1)), Poll::Ready(()));
    assert_eq!(sweep.resume(Reply::Failed), Poll::Ready(()));
    assert!(sweep.is_done());
}

#[test]
fn builders_start_as_the_plain_functions_do() {
    let open: Vec<i32> = (0..20).collect();
    let keep = [4, 9];
    for kernel in kernels(&open) {
        let mut a = kernel.clone();
        let mut b = kernel.clone();
        run(&mut a, close_open_fds(3, &keep, kernel.sys()));
        let mut builder = CloseFdsBuilder::default();
        builder.keep_fds(&keep);
        run(&mut b, builder.closefrom(3, kernel.sys()));
        assert_eq!(a.calls, b.calls);

        let mut a = kernel.clone();
        let mut b = kernel.clone();
        let fds = collect(&mut a, iter_open_fds(3, kernel.sys()));
        assert_eq!(fds, collect(&mut b, FdIterBuilder::default().iter_from(3, kernel.sys())));
        assert_eq!(a.calls, b.calls);

        let mut a = kernel.clone();
        let mut b = kernel.clone();
        let fds = collect(&mut a, iter_fds(3, true, true, kernel.sys()));
        assert_eq!(fds, collect(&mut b, iter_possible_fds_threadsafe(3, kernel.sys())));
        assert_eq!(a.calls, b.calls);
    }
    // A later keep-list replaces an earlier one.
    let mut k = Kernel::new(Os::Other, &open);
    let mut builder = CloseFdsBuilder::new();
    builder.keep_fds(&[1, 2]).keep_fds(&keep);
    let sys0 = k.sys();
    run(&mut k, builder.closefrom(0, sys0));
    assert_eq!(k.open_fds(), keep);
}

#[test]
fn a_listing_cursor_on_its_own() {
    assert!(DirFdIter::open(0, -1, linux_layout()).is_none());
    let mut cursor = DirFdIter::open(2, 3, linux_layout()).unwrap();
    assert_eq!(cursor.handle(), Some(3));
    assert_eq!(cursor.size_hint(), (0, Some(1 << 31)));
    assert_eq!(
        cursor.next(Reply::Nothing),
        Poll::Pending(Request::ReadListing { dirfd: 3, len: 280 })
    );

    let mut k = Kernel::new(Os::Linux, &[0, 1, 2, 3, 4, 7]);
    k.dirs.insert(3, Dir::default());
    let answer = k.perform(Request::ReadListing { dirfd: 3, len: 280 });
    assert_eq!(cursor.next(answer.reply()), Poll::Ready(Ok(Some(2))));
    assert_eq!(cursor.size_hint(), (2, Some(1 << 31)));
    assert_eq!(cursor.get_entry_info(0), Some((None, 24)));
    assert_eq!(cursor.get_entry_info(48), Some((Some(0), 24)));
    assert_eq!(cursor.get_entry_info(8 * 24), None);
    assert_eq!(cursor.next(Reply::Nothing), Poll::Ready(Ok(Some(4))));
    assert_eq!(cursor.next(Reply::Nothing), Poll::Ready(Ok(Some(7))));
    assert_eq!(cursor.size_hint(), (0, Some(1 << 31)));
    assert_eq!(
        cursor.next(Reply::Nothing),
        Poll::Pending(Request::ReadListing { dirfd: 3, len: 280 })
    );
    assert_eq!(
        cursor.next(Reply::Data(0, &[])),
        Poll::Pending(Request::CloseListing { dirfd: 3 })
    );
    assert_eq!(cursor.next(Reply::Nothing), Poll::Ready(Ok(None)));
    assert_eq!(cursor.handle(), None);
    assert_eq!(cursor.size_hint(), (0, Some(0)));
    assert_eq!(cursor.next(Reply::Nothing), Poll::Ready(Ok(None)));
    assert_eq!(cursor.release(), None);

    // A read that fails, or brings more than was asked for, fails the cursor.
    for answer in [
        Answer::Data(-1, vec![]),
        Answer::Failed,
        Answer::Value(24),
        Answer::Data(25, vec![0; 24]),
        Answer::Data(2000, vec![0; 2000]),
    ] {
        let mut cursor = DirFdIter::open(0, 3, linux_layout()).unwrap();
        assert!(matches!(cursor.next(Reply::Nothing), Poll::Pending(_)));
        assert_eq!(
            cursor.next(answer.reply()),
            Poll::Pending(Request::CloseListing { dirfd: 3 })
        );
        assert_eq!(cursor.release(), None);
        assert_eq!(cursor.handle(), None);
    }
    let mut cursor = DirFdIter::open(0, 3, linux_layout()).unwrap();
    assert!(matches!(cursor.next(Reply::Nothing), Poll::Pending(_)));
    assert_eq!(cursor.next(Reply::Failed), Poll::Pending(Request::CloseListing { dirfd: 3 }));
    assert_eq!(cursor.next(Reply::Nothing), Poll::Ready(Err(())));
    assert_eq!(cursor.next(Reply::Nothing), Poll::Ready(Ok(None)));

    // No more is asked for than the cursor can hold.
    let wide = DirentLayout { read_len: 1 << 20, ..linux_layout() };
    let mut cursor = DirFdIter::open(0, 3, wide).unwrap();
    assert_eq!(
        cursor.next(Reply::Nothing),
        Poll::Pending(Request::ReadListing { dirfd: 3, len: 1048 })
    );
    assert_eq!(cursor.release(), Some(3));
}

fn flags_of(kernel: &mut Kernel, fd: i32) -> i32 {
    match kernel.perform(Request::GetFlags { fd }) {
        Answer::Value(flags) => flags as i32,
        _ => -1,
    }
}

fn mark(kernel: &mut Kernel, fd: i32) {
    let flags = flags_of(kernel, fd);
    if let Some(flags) = set_cloexec(flags) {
        kernel.perform(Request::SetFlags { fd, flags });
    }
}

#[test]
fn test_is_fd_valid() {
    let mut k = Kernel::new(Os::Linux, &[0, 1, 2]);
    assert!(!is_fd_valid(flags_of(&mut k, -1)));
    assert!(!is_fd_valid(flags_of(&mut k, i32::MAX)));

    assert!(is_fd_valid(flags_of(&mut k, 0)));
    let fd = k.open_one();
    assert!(is_fd_valid(flags_of(&mut k, fd)));
    k.perform(Request::Close { fd });
    assert!(!is_fd_valid(flags_of(&mut k, fd)));
}

#[test]
fn test_set_cloexec() {
    let mut k = Kernel::new(Os::Linux, &[0, 1, 2]);
    // No panic on errors like this
    mark(&mut k, -1);
    mark(&mut k, i32::MAX);
    assert!(!k.asked(|req| matches!(req, Request::SetFlags { .. })));

    let fd = k.open_one();
    assert!(!k.cloexec.contains(&fd));
    mark(&mut k, fd);
    assert!(k.cloexec.contains(&fd));
    // A descriptor that is marked is not written to again.
    mark(&mut k, fd);
    assert_eq!(k.count(|req| matches!(req, Request::SetFlags { .. })), 1);
}

#[test]
fn size_hint_counts_the_number_that_is_being_asked_about() {
    let sys = Sys::new(Os::NetBsd, bsd_layout());
    let mut builder = FdIterBuilder::new();
    builder.allow_filesystem(false);

    // The bound of the scan is the threshold itself: one number may come.
    let mut iter = builder.iter_from(7, sys);
    assert_eq!(iter.size_hint(), (0, Some(1 << 31)));
    assert_eq!(iter.next(Reply::Nothing), Poll::Pending(Request::MaxFd));
    assert_eq!(iter.size_hint(), (0, Some(1 << 31)));
    assert_eq!(iter.next(Reply::Pair(7, 0)), Poll::Pending(Request::GetFlags { fd: 7 }));
    assert_eq!(iter.size_hint(), (0, Some(1)));
    assert_eq!(iter.next(Reply::Value(0)), Poll::Ready(Some(7)));
    assert_eq!(iter.size_hint(), (0, Some(0)));
    assert_eq!(iter.next(Reply::Nothing), Poll::Ready(None));
    assert_eq!(iter.size_hint(), (0, Some(0)));

    // A number that turns out not to be open takes the bound down with it.
    let mut iter = builder.iter_from(5, sys);
    assert_eq!(iter.next(Reply::Nothing), Poll::Pending(Request::MaxFd));
    assert_eq!(iter.next(Reply::Pair(7, 0)), Poll::Pending(Request::GetFlags { fd: 5 }));
    assert_eq!(iter.size_hint(), (0, Some(3)));
    assert_eq!(iter.next(Reply::Value(-1)), Poll::Pending(Request::GetFlags { fd: 6 }));
    assert_eq!(iter.size_hint(), (0, Some(2)));
    assert_eq!(iter.next(Reply::Value(1)), Poll::Ready(Some(6)));
    assert_eq!(iter.size_hint(), (0, Some(1)));
    assert_eq!(iter.next(Reply::Nothing), Poll::Pending(Request::GetFlags { fd: 7 }));
    assert_eq!(iter.size_hint(), (0, Some(1)));
    assert_eq!(iter.next(Reply::Failed), Poll::Ready(None));
    assert_eq!(iter.size_hint(), (0, Some(0)));

    // Where numbers are handed out unseen, both bounds are the count.
    builder.possible(true);
    let mut iter = builder.iter_from(5, sys);
    assert_eq!(iter.next(Reply::Nothing), Poll::Pending(Request::MaxFd));
    assert_eq!(iter.next(Reply::Pair(7, 0)), Poll::Ready(Some(5)));
    assert_eq!(iter.size_hint(), (2, Some(2)));
    assert_eq!(iter.next(Reply::Nothing), Poll::Ready(Some(6)));
    assert_eq!(iter.size_hint(), (1, Some(1)));
    assert_eq!(iter.next(Reply::Nothing), Poll::Ready(Some(7)));
    assert_eq!(iter.size_hint(), (0, Some(0)));
}

/// Takes an enumeration to its end, step by step, and holds the size hint of
/// every state on the way, also of those in which a reply is awaited, against
/// the number of descriptors that came after it.
fn size_hint_holds_in_every_state(kernel: &mut Kernel, mut iter: FdIter) {
    let mut hints: Vec<((usize, Option<usize>), usize)> = Vec::new();
    let mut handed_out = 0;
    let mut answer = Answer::Nothing;
    for _ in 0..1_000_000 {
        hints.push((iter.size_hint(), handed_out));
        match iter.next(answer.reply()) {
            Poll::Ready(Some(_)) => {
                handed_out += 1;
                answer = Answer::Nothing;
            }
            Poll::Ready(None) => {
                hints.push((iter.size_hint(), handed_out));
                for ((low, high), before) in hints {
                    let still_to_come = handed_out - before;
                    assert!(low <= still_to_come);
                    assert!(still_to_come <= high.unwrap());
                }
                assert_eq!(iter.size_hint(), (0, Some(0)));
                return;
            }
            Poll::Pending(req) => answer = kernel.perform(req),
        }
    }
    panic!("the enumeration does not come to an end");
}

#[test]
fn size_hint_holds_between_any_two_steps() {
    let open = [0, 1, 2, 5, 6, 9, 64, 65, 200, 1000, 1023];
    for kernel in kernels(&open) {
        for minfd in [0, 3, 65, 1000, 1023, 1024, 5000] {
            for possible in [false, true] {
                for threadsafe in [false, true] {
                    let mut k = kernel.clone();
                    let iter = iter_fds(minfd, possible, threadsafe, kernel.sys());
                    size_hint_holds_in_every_state(&mut k, iter);
                }
            }
        }
    }
}
