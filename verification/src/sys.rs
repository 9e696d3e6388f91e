//! What the library knows of the kernels it runs on, and the vocabulary in
//! which it asks its caller to talk to one: a request names one kernel call,
//! a reply carries what the call returned.

use vstd::prelude::*;

verus! {

/// The descriptor flag that marks a descriptor close-on-exec.
pub const FD_CLOEXEC: i32 = 1;

/// How many descriptor numbers there are: as many as there are numbers from 0
/// to `i32::MAX`.
pub const FD_NUMBERS: usize = 2147483648;

/// The first kernel release date of the family that probes its release before
/// it tries to close a range, from which closing a range is supported.
pub const CLOSE_RANGE_OSRELDATE: i64 = 1202000;

/// The kernel families that are told apart.
#[derive(Clone, Copy, Debug, PartialEq, Eq, Structural)]
pub enum Os {
    Linux,
    MacOs,
    Ios,
    FreeBsd,
    NetBsd,
    OpenBsd,
    DragonFly,
    Solaris,
    Illumos,
    /// Any other kernel: only what every one of them offers is used.
    Other,
}

/// The two directories that may list the open descriptors of the process.
#[derive(Clone, Copy, Debug, PartialEq, Eq, Structural)]
pub enum ListingPath {
    /// `/proc/self/fd`
    ProcSelfFd,
    /// `/dev/fd`
    DevFd,
}

/// How a kernel family supports closing a whole range in one call.
#[derive(Clone, Copy, Debug, PartialEq, Eq, Structural)]
pub enum RangeSupport {
    /// The family has no such call.
    Never,
    /// An unsupported call only fails, so it is tried and given up on failure.
    Optimistic,
    /// An unsupported call may kill the process, so the release date of the
    /// kernel is asked first.
    Probed,
}

impl Os {
    /// The directory that lists the descriptors, where the family has one
    /// that can be trusted.
    pub open spec fn spec_listing_path(self) -> Option<ListingPath> {
        match self {
            Os::Linux | Os::NetBsd => Some(ListingPath::ProcSelfFd),
            Os::MacOs | Os::Ios | Os::FreeBsd | Os::Solaris | Os::Illumos => Some(
                ListingPath::DevFd,
            ),
            _ => None,
        }
    }

    /// See [`Os::spec_listing_path`].
    #[verifier::when_used_as_spec(spec_listing_path)]
    pub fn listing_path(self) -> (r: Option<ListingPath>)
        ensures
            r == self.spec_listing_path(),
    {
        match self {
            Os::Linux | Os::NetBsd => Some(ListingPath::ProcSelfFd),
            Os::MacOs | Os::Ios | Os::FreeBsd | Os::Solaris | Os::Illumos => Some(
                ListingPath::DevFd,
            ),
            _ => None,
        }
    }

    /// The directory to try when the first one cannot be opened.
    pub open spec fn spec_second_listing_path(self) -> Option<ListingPath> {
        match self {
            Os::Solaris | Os::Illumos => Some(ListingPath::ProcSelfFd),
            _ => None,
        }
    }

    /// See [`Os::spec_second_listing_path`].
    #[verifier::when_used_as_spec(spec_second_listing_path)]
    pub fn second_listing_path(self) -> (r: Option<ListingPath>)
        ensures
            r == self.spec_second_listing_path(),
    {
        match self {
            Os::Solaris | Os::Illumos => Some(ListingPath::ProcSelfFd),
            _ => None,
        }
    }

    /// Whether the listing is to be opened with the flag that insists on a
    /// directory.
    pub open spec fn spec_listing_is_directory(self) -> bool {
        !(self is Solaris || self is Illumos)
    }

    /// See [`Os::spec_listing_is_directory`].
    #[verifier::when_used_as_spec(spec_listing_is_directory)]
    pub fn listing_is_directory(self) -> (r: bool)
        ensures
            r == self.spec_listing_is_directory(),
    {
        !matches!(self, Os::Solaris | Os::Illumos)
    }

    /// Whether the listing is wrong under one flavour of the kernel, which is
    /// told by the kernel's release name.
    pub open spec fn spec_listing_needs_release(self) -> bool {
        self is Linux
    }

    /// See [`Os::spec_listing_needs_release`].
    #[verifier::when_used_as_spec(spec_listing_needs_release)]
    pub fn listing_needs_release(self) -> (r: bool)
        ensures
            r == self.spec_listing_needs_release(),
    {
        matches!(self, Os::Linux)
    }

    /// Whether the listing may be a static directory, to be trusted only when
    /// it lies on another device than its parent.
    pub open spec fn spec_listing_needs_device_check(self) -> bool {
        self is FreeBsd
    }

    /// See [`Os::spec_listing_needs_device_check`].
    #[verifier::when_used_as_spec(spec_listing_needs_device_check)]
    pub fn listing_needs_device_check(self) -> (r: bool)
        ensures
            r == self.spec_listing_needs_device_check(),
    {
        matches!(self, Os::FreeBsd)
    }

    /// Whether one call closes every descriptor from a given one upward.
    pub open spec fn spec_has_closefrom(self) -> bool {
        self is FreeBsd || self is NetBsd || self is OpenBsd || self is DragonFly
    }

    /// See [`Os::spec_has_closefrom`].
    #[verifier::when_used_as_spec(spec_has_closefrom)]
    pub fn has_closefrom(self) -> (r: bool)
        ensures
            r == self.spec_has_closefrom(),
    {
        matches!(self, Os::FreeBsd | Os::NetBsd | Os::OpenBsd | Os::DragonFly)
    }

    /// How closing a range is supported.
    pub open spec fn spec_close_range(self) -> RangeSupport {
        match self {
            Os::Linux => RangeSupport::Optimistic,
            Os::FreeBsd => RangeSupport::Probed,
            _ => RangeSupport::Never,
        }
    }

    /// See [`Os::spec_close_range`].
    #[verifier::when_used_as_spec(spec_close_range)]
    pub fn close_range(self) -> (r: RangeSupport)
        ensures
            r == self.spec_close_range(),
    {
        match self {
            Os::Linux => RangeSupport::Optimistic,
            Os::FreeBsd => RangeSupport::Probed,
            _ => RangeSupport::Never,
        }
    }

    /// How marking a range close-on-exec is supported.
    pub open spec fn spec_cloexec_range(self) -> RangeSupport {
        match self {
            Os::Linux => RangeSupport::Optimistic,
            _ => RangeSupport::Never,
        }
    }

    /// See [`Os::spec_cloexec_range`].
    #[verifier::when_used_as_spec(spec_cloexec_range)]
    pub fn cloexec_range(self) -> (r: RangeSupport)
        ensures
            r == self.spec_cloexec_range(),
    {
        match self {
            Os::Linux => RangeSupport::Optimistic,
            _ => RangeSupport::Never,
        }
    }

    /// Whether the kernel tells the highest open descriptor.
    pub open spec fn spec_has_maxfd_query(self) -> bool {
        self is NetBsd
    }

    /// See [`Os::spec_has_maxfd_query`].
    #[verifier::when_used_as_spec(spec_has_maxfd_query)]
    pub fn has_maxfd_query(self) -> (r: bool)
        ensures
            r == self.spec_has_maxfd_query(),
    {
        matches!(self, Os::NetBsd)
    }

    /// Whether the kernel tells how many descriptors are open.
    pub open spec fn spec_has_count_query(self) -> bool {
        self is FreeBsd || self is OpenBsd
    }

    /// See [`Os::spec_has_count_query`].
    #[verifier::when_used_as_spec(spec_has_count_query)]
    pub fn has_count_query(self) -> (r: bool)
        ensures
            r == self.spec_has_count_query(),
    {
        matches!(self, Os::FreeBsd | Os::OpenBsd)
    }
}

/// What is known of an optional bulk operation of the kernel. The knowledge
/// only ever grows: see [`Capability::may_follow`].
#[derive(Clone, Copy, Debug, PartialEq, Eq, Structural)]
pub enum Capability {
    Unknown,
    Available,
    Unavailable,
}

impl Capability {
    /// The flag may go from `self` to `next`: from unknown to anything, from
    /// available to unavailable, and otherwise it stays.
    pub open spec fn may_follow(self, next: Capability) -> bool {
        self == next || self is Unknown || (self is Available && next is Unavailable)
    }

    /// Where a flag starts for an operation with the given support.
    pub open spec fn spec_initial(support: RangeSupport) -> Capability {
        match support {
            RangeSupport::Never => Capability::Unavailable,
            RangeSupport::Optimistic => Capability::Available,
            RangeSupport::Probed => Capability::Unknown,
        }
    }

    /// See [`Capability::spec_initial`].
    #[verifier::when_used_as_spec(spec_initial)]
    pub fn initial(support: RangeSupport) -> (r: Capability)
        ensures
            r == Capability::spec_initial(support),
    {
        match support {
            RangeSupport::Never => Capability::Unavailable,
            RangeSupport::Optimistic => Capability::Available,
            RangeSupport::Probed => Capability::Unknown,
        }
    }
}

/// Where the fields of one directory record lie. A record starts with a fixed
/// part of `name_offset` bytes, which holds the 16-bit length of the whole
/// record at `reclen_offset` and, on some kernels, the 16-bit length of the
/// name at `namlen_offset`. The name follows; where its length is not given it
/// ends at the first zero byte.
#[derive(Clone, Copy, Debug, PartialEq, Eq)]
pub struct DirentLayout {
    pub reclen_offset: usize,
    pub namlen_offset: Option<usize>,
    pub name_offset: usize,
    /// How many bytes are asked of the kernel in one read.
    pub read_len: usize,
    /// Whether 16-bit fields hold their high byte first.
    pub big_endian: bool,
}

/// What is known of the kernel under the process: its family, the shape of its
/// directory records, and what has been learnt of its optional operations. A
/// caller keeps one such value per process and stores back what an operation
/// hands out when it is done.
#[derive(Clone, Copy, Debug, PartialEq, Eq)]
pub struct Sys {
    pub os: Os,
    pub dirent: DirentLayout,
    pub close_range: Capability,
    pub cloexec_range: Capability,
    /// Whether the kernel is the flavour whose listing is wrong, once known.
    pub wsl1: Option<bool>,
}

impl Sys {
    /// What is known when a process starts.
    pub fn new(os: Os, dirent: DirentLayout) -> (r: Sys)
        ensures
            r == (Sys {
                os,
                dirent,
                close_range: Capability::spec_initial(os.spec_close_range()),
                cloexec_range: Capability::spec_initial(os.spec_cloexec_range()),
                wsl1: None,
            }),
    {
        Sys {
            os,
            dirent,
            close_range: Capability::initial(os.close_range()),
            cloexec_range: Capability::initial(os.cloexec_range()),
            wsl1: None,
        }
    }

    /// The knowledge in `next` may come after that in `self`: same kernel, and
    /// each flag moved only in a direction it may move.
    pub open spec fn may_follow(self, next: Sys) -> bool {
        &&& next.os == self.os
        &&& next.dirent == self.dirent
        &&& self.close_range.may_follow(next.close_range)
        &&& self.cloexec_range.may_follow(next.cloexec_range)
        &&& (self.wsl1 is Some ==> next.wsl1 == self.wsl1)
    }
}

/// One kernel call that the caller is asked to make.
#[derive(Clone, Copy, Debug, PartialEq, Eq, Structural)]
pub enum Request {
    /// No call is needed: take the next step, with any reply.
    Proceed,
    /// Read the kernel's release name; answer with `Reply::Data`.
    KernelRelease,
    /// Open the directory read-only and close-on-exec; answer with
    /// `Reply::Value` of what the call returned.
    OpenListing { path: ListingPath, directory: bool },
    /// Find the device of `/dev` and the device that `dirfd` lies on; answer
    /// with `Reply::Pair` of the two, or `Reply::Failed`.
    CompareDevices { dirfd: i32 },
    /// Read up to `len` bytes of directory records from `dirfd`; answer with
    /// `Reply::Data` of the count that the call returned and the bytes.
    ReadListing { dirfd: i32, len: usize },
    /// Close the directory; any answer will do.
    CloseListing { dirfd: i32 },
    /// Ask for the highest open descriptor; answer with `Reply::Pair` of what
    /// the call returned and the error number it left.
    MaxFd,
    /// Ask how many descriptors are open; answer with `Reply::Value` of the
    /// count, or `Reply::Failed`.
    CountFds,
    /// Ask for the limit on open descriptors; answer with `Reply::Value`.
    OpenMax,
    /// Read the descriptor flags of `fd`; answer with `Reply::Value` of what
    /// the call returned.
    GetFlags { fd: i32 },
    /// Write the descriptor flags of `fd`; any answer will do.
    SetFlags { fd: i32, flags: i32 },
    /// Close `fd`; any answer will do.
    Close { fd: i32 },
    /// Close every descriptor from `fd` upward; any answer will do.
    CloseFrom { fd: i32 },
    /// Close every descriptor from `low` to `high`; answer with `Reply::Value`
    /// of what the call returned.
    CloseRange { low: u32, high: u32 },
    /// Mark every descriptor from `low` to `high` close-on-exec; answer with
    /// `Reply::Value` of what the call returned.
    CloexecRange { low: u32, high: u32 },
    /// Ask for the kernel's release date; answer with `Reply::Value`, or
    /// `Reply::Failed`.
    OsRelDate,
}

/// What a kernel call returned.
#[derive(Clone, Copy, Debug)]
pub enum Reply<'a> {
    /// Nothing: no call was asked for, or its outcome is of no interest.
    Nothing,
    /// The call could not be made, or failed where failure has its own answer.
    Failed,
    /// A number.
    Value(i64),
    /// Two numbers.
    Pair(i64, i64),
    /// A count and the bytes that the call filled.
    Data(i64, &'a [u8]),
}

/// Where a piece of work stands: it needs a kernel call made, or it is done
/// and has a result.
#[derive(Debug, PartialEq, Eq)]
pub enum Poll<T> {
    Pending(Request),
    Ready(T),
}

} // verus!
