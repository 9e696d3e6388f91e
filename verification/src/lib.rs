//! Enumerating, closing and marking close-on-exec the file descriptors of a
//! process, written so that every decision is a pure function: the caller
//! performs each kernel request and hands the answer back.
//!
//! By default a child process inherits every descriptor of its parent that is
//! not marked close-on-exec. A program that starts other programs, and cannot
//! vouch for every descriptor that code in it has opened, closes or marks all
//! of them but a few just before it does so. That moment, between the
//! duplication of the process and the replacement of its program, allows very
//! little: no memory may be taken and no lock waited for. Nothing in this
//! library takes memory or waits.
//!
//! An operation is a value that is stepped: each step names one kernel call,
//! the caller makes the call and hands what it returned to the following step,
//! until the operation reports that it is done. What is known of the kernel is
//! a value too, [`sys::Sys`], which the caller keeps between operations.

pub mod closefds;
pub mod iterfds;
pub mod sys;
pub mod util;

pub use crate::closefds::close::{Mode, Stage, Sweep};
pub use crate::closefds::{
    close_open_fds, probe, probed, set_fds_cloexec, set_fds_cloexec_generic,
    set_fds_cloexec_threadsafe, CloseFdsBuilder, KeepFds,
};
pub use crate::iterfds::dirfd::{decode_record, parse_int_bytes, DirFdIter};
pub use crate::iterfds::fditer::{iter_fds, FdIter};
pub use crate::iterfds::{
    iter_open_fds, iter_open_fds_threadsafe, iter_possible_fds, iter_possible_fds_threadsafe,
    FdIterBuilder,
};
pub use crate::sys::{Capability, DirentLayout, ListingPath, Os, Poll, Reply, Request, Sys};
