//! Enumerating the descriptors of a process in ascending order.

pub mod dirfd;
pub mod fditer;
pub mod kernel;
pub mod laws;

use crate::iterfds::fditer::{FdIter, FdIterView};
use crate::sys::Sys;
use vstd::prelude::*;

verus! {

/// The options of an enumeration, as contracts speak of them.
pub struct FdIterBuilderView {
    /// Whether numbers may be handed out that are not open descriptors.
    pub possible: bool,
    /// Whether the enumeration has to hold up while other threads open and
    /// close descriptors.
    pub threadsafe: bool,
    /// Whether the kernel's listing of descriptors may be read.
    pub allow_filesystem: bool,
}

/// Collects the options of an enumeration and starts it.
///
/// Descriptors that are opened while an enumeration runs may or may not be
/// handed out. Closing descriptors while it runs does not keep it from handing
/// out the others.
#[derive(Clone, Copy, Debug)]
pub struct FdIterBuilder {
    possible: bool,
    skip_nfds: bool,
    dirfd: bool,
}

impl View for FdIterBuilder {
    type V = FdIterBuilderView;

    closed spec fn view(&self) -> FdIterBuilderView {
        FdIterBuilderView {
            possible: self.possible,
            threadsafe: self.skip_nfds,
            allow_filesystem: self.dirfd,
        }
    }
}

impl FdIterBuilder {
    /// The options as they stand at first: only open descriptors are handed
    /// out, other threads are not reckoned with, and the kernel's listing may
    /// be read.
    pub fn new() -> (r: Self)
        ensures
            r@ == (FdIterBuilderView {
                possible: false,
                threadsafe: false,
                allow_filesystem: true,
            }),
    {
        FdIterBuilder { possible: false, skip_nfds: false, dirfd: true }
    }

    /// Sets whether the enumeration may, for speed, hand out numbers that are
    /// not open descriptors. A caller that sets this has to put each number to
    /// a use that shows whether it is one.
    pub fn possible(&mut self, possible: bool) -> (r: &mut Self)
        ensures
            r@ == (FdIterBuilderView { possible, ..old(self)@ }),
            *final(self) == *final(r),
    {
        self.possible = possible;
        self
    }

    /// Sets whether the enumeration has to behave well while other threads
    /// open descriptors. Where it has to, the bound of a scan is not found by
    /// counting the open descriptors.
    pub fn threadsafe(&mut self, threadsafe: bool) -> (r: &mut Self)
        ensures
            r@ == (FdIterBuilderView { threadsafe, ..old(self)@ }),
            *final(self) == *final(r),
    {
        self.skip_nfds = threadsafe;
        self
    }

    /// Sets whether the enumeration may read the kernel's listing of
    /// descriptors. Forbidding it is of use where that directory may have been
    /// replaced by someone else.
    pub fn allow_filesystem(&mut self, fs: bool) -> (r: &mut Self)
        ensures
            r@ == (FdIterBuilderView { allow_filesystem: fs, ..old(self)@ }),
            *final(self) == *final(r),
    {
        self.dirfd = fs;
        self
    }

    /// Starts an enumeration of the descriptors at or above `minfd`, which is
    /// taken as 0 where it is negative, on the kernel that `sys` describes.
    pub fn iter_from(&self, minfd: i32, sys: Sys) -> (r: FdIter)
        ensures
            r@ == FdIterView::fresh(
                minfd,
                self@.possible,
                self@.threadsafe,
                self@.allow_filesystem,
                sys,
            ),
    {
        FdIter::new(minfd, self.possible, self.skip_nfds, self.dirfd, sys)
    }
}

impl Default for FdIterBuilder {
    fn default() -> (r: Self)
        ensures
            r@ == (FdIterBuilderView {
                possible: false,
                threadsafe: false,
                allow_filesystem: true,
            }),
    {
        Self::new()
    }
}

/// Enumerates the open descriptors at or above `minfd`, in ascending order.
pub fn iter_open_fds(minfd: i32, sys: Sys) -> (r: FdIter)
    ensures
        r@ == FdIterView::fresh(minfd, false, false, true, sys),
{
    FdIterBuilder::new().iter_from(minfd, sys)
}

/// As [`iter_open_fds`], and holds up while other threads open descriptors,
/// which on some kernels costs speed.
pub fn iter_open_fds_threadsafe(minfd: i32, sys: Sys) -> (r: FdIter)
    ensures
        r@ == FdIterView::fresh(minfd, false, true, true, sys),
{
    let mut builder = FdIterBuilder::new();
    builder.threadsafe(true);
    builder.iter_from(minfd, sys)
}

/// As [`iter_open_fds`], but may for speed hand out numbers that are not open
/// descriptors.
pub fn iter_possible_fds(minfd: i32, sys: Sys) -> (r: FdIter)
    ensures
        r@ == FdIterView::fresh(minfd, true, false, true, sys),
{
    let mut builder = FdIterBuilder::new();
    builder.possible(true);
    builder.iter_from(minfd, sys)
}

/// As [`iter_open_fds_threadsafe`], but may for speed hand out numbers that
/// are not open descriptors.
pub fn iter_possible_fds_threadsafe(minfd: i32, sys: Sys) -> (r: FdIter)
    ensures
        r@ == FdIterView::fresh(minfd, true, true, true, sys),
{
    let mut builder = FdIterBuilder::new();
    builder.possible(true);
    builder.threadsafe(true);
    builder.iter_from(minfd, sys)
}

} // verus!
