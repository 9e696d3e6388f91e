//! Reading descriptor numbers out of the records of a kernel-provided
//! directory that has one entry per open descriptor.

use crate::sys::{DirentLayout, Poll, Reply, Request, FD_NUMBERS};
use crate::util::{lemma_nul_index_is, nul_index};
use vstd::prelude::*;
use vstd::slice::slice_subrange;

verus! {

/// `b` is an ASCII decimal digit.
pub open spec fn is_digit(b: u8) -> bool {
    0x30 <= b <= 0x39
}

/// Every byte of `s` is an ASCII decimal digit.
pub open spec fn all_digits(s: Seq<u8>) -> bool {
    forall|i: int| 0 <= i < s.len() ==> is_digit(#[trigger] s[i])
}

/// The number that the decimal digits `s` write, most significant first.
pub open spec fn digits_value(s: Seq<u8>) -> int
    decreases s.len(),
{
    if s.len() == 0 {
        0
    } else {
        digits_value(s.drop_last()) * 10 + (s.last() - 0x30)
    }
}

/// What a name parses to: its value where it is a non-empty run of decimal
/// digits whose value fits a descriptor number, and nothing otherwise.
pub open spec fn parse_int_spec(s: Seq<u8>) -> Option<i32> {
    if s.len() > 0 && all_digits(s) && digits_value(s) <= i32::MAX {
        Some(digits_value(s) as i32)
    } else {
        None
    }
}

/// The value of a run of digits is never negative and never below the value of
/// one of its leading parts.
pub proof fn lemma_digits_value_grows(s: Seq<u8>, n: int)
    requires
        all_digits(s),
        0 <= n <= s.len(),
    ensures
        0 <= digits_value(s.take(n)) <= digits_value(s),
    decreases s.len() - n,
{
    lemma_digits_value_nonneg(s.take(n));
    if n == s.len() {
        assert(s.take(n) =~= s);
    } else {
        let t = s.drop_last();
        assert(t.take(n) =~= s.take(n));
        assert(is_digit(s.last()));
        assert forall|i: int| 0 <= i < t.len() implies is_digit(#[trigger] t[i]) by {
            assert(t[i] == s[i]);
        }
        lemma_digits_value_grows(t, n);
    }
}

/// The value of a run of digits is never negative.
pub proof fn lemma_digits_value_nonneg(s: Seq<u8>)
    requires
        all_digits(s),
    ensures
        0 <= digits_value(s),
    decreases s.len(),
{
    if s.len() > 0 {
        let t = s.drop_last();
        assert(is_digit(s.last()));
        assert forall|i: int| 0 <= i < t.len() implies is_digit(#[trigger] t[i]) by {
            assert(t[i] == s[i]);
        }
        lemma_digits_value_nonneg(t);
    }
}

/// Parses a name as a descriptor number. Only a non-empty run of decimal
/// digits that does not exceed `i32::MAX` is a number: signs, blanks and any
/// other byte make the name no number at all.
pub fn parse_int_bytes(name: &[u8]) -> (r: Option<i32>)
    ensures
        r == parse_int_spec(name@),
{
    let mut num: i32 = 0;
    let mut i: usize = 0;
    while i < name.len()
        invariant
            i <= name@.len(),
            all_digits(name@.take(i as int)),
            0 <= num,
            num == digits_value(name@.take(i as int)),
        decreases name@.len() - i,
    {
        let ch: u8 = name[i];
        proof {
            assert(name@.take(i + 1).drop_last() =~= name@.take(i as int));
            assert(name@.take(i + 1).last() == ch);
        }
        if 0x30 <= ch && ch <= 0x39 {
            let next: i64 = num as i64 * 10 + (ch - 0x30) as i64;
            if next > i32::MAX as i64 {
                proof {
                    assert(digits_value(name@.take(i + 1)) > i32::MAX);
                    if all_digits(name@) {
                        lemma_digits_value_grows(name@, i + 1);
                    }
                }
                return None;
            }
            num = next as i32;
            proof {
                assert forall|j: int| 0 <= j < i + 1 implies is_digit(
                    #[trigger] name@.take(i + 1)[j],
                ) by {
                    if j < i {
                        assert(name@.take(i as int)[j] == name@[j]);
                    }
                }
            }
        } else {
            proof {
                assert(!is_digit(name@[i as int]));
            }
            return None;
        }
        i += 1;
    }
    proof {
        assert(name@.take(i as int) =~= name@);
    }
    if i > 0 {
        Some(num)
    } else {
        None
    }
}

/// The 16-bit number held in the two bytes of `data` at `at`.
pub open spec fn u16_at(data: Seq<u8>, at: int, big_endian: bool) -> int {
    if big_endian {
        data[at] * 256 + data[at + 1]
    } else {
        data[at] + data[at + 1] * 256
    }
}

/// The length that the record at `off` states of itself.
pub open spec fn record_len(layout: DirentLayout, data: Seq<u8>, off: int) -> int {
    u16_at(data, off + layout.reclen_offset, layout.big_endian)
}

/// The record at `off` can be read: the layout keeps its length fields inside
/// the fixed part, the fixed part and the whole record lie inside `data`, the
/// record is at least as long as its fixed part, and a stated name length does
/// not reach beyond the record.
pub open spec fn record_ok(layout: DirentLayout, data: Seq<u8>, off: int) -> bool {
    &&& layout.reclen_offset + 2 <= layout.name_offset
    &&& (layout.namlen_offset matches Some(n) ==> n + 2 <= layout.name_offset)
    &&& 0 <= off
    &&& off + layout.name_offset <= data.len()
    &&& layout.name_offset <= record_len(layout, data, off)
    &&& off + record_len(layout, data, off) <= data.len()
    &&& (layout.namlen_offset matches Some(n) ==> u16_at(data, off + n, layout.big_endian)
        <= record_len(layout, data, off) - layout.name_offset)
}

/// The name that the record at `off` holds.
pub open spec fn record_name(layout: DirentLayout, data: Seq<u8>, off: int) -> Seq<u8> {
    let field = data.subrange(off + layout.name_offset, off + record_len(layout, data, off));
    match layout.namlen_offset {
        Some(n) => field.take(u16_at(data, off + n, layout.big_endian)),
        None => field.take(nul_index(field)),
    }
}

/// The descriptor number that the record at `off` names, where it names one.
pub open spec fn record_fd(layout: DirentLayout, data: Seq<u8>, off: int) -> Option<i32> {
    parse_int_spec(record_name(layout, data, off))
}

fn read_u16(data: &[u8], at: usize, big_endian: bool) -> (r: usize)
    requires
        at + 2 <= data@.len(),
    ensures
        r == u16_at(data@, at as int, big_endian),
{
    let a: usize = data[at] as usize;
    let b: usize = data[at + 1] as usize;
    if big_endian {
        a * 256 + b
    } else {
        a + b * 256
    }
}

/// Decodes the directory record that starts at `off` in `data`: the descriptor
/// number that its name writes, if it writes one, and the length of the
/// record, which is where the next record starts. Nothing comes back where no
/// whole record can be read at `off`.
pub fn decode_record(layout: &DirentLayout, data: &[u8], off: usize) -> (r: Option<
    (Option<i32>, usize),
>)
    ensures
        match r {
            Some((fd, reclen)) => record_ok(*layout, data@, off as int) && fd == record_fd(
                *layout,
                data@,
                off as int,
            ) && reclen == record_len(*layout, data@, off as int),
            None => !record_ok(*layout, data@, off as int),
        },
{
    let n: usize = data.len();
    if layout.name_offset < 2 || layout.reclen_offset > layout.name_offset - 2 {
        return None;
    }
    if let Some(m) = layout.namlen_offset {
        if m > layout.name_offset - 2 {
            return None;
        }
    }
    if off > n || n - off < layout.name_offset {
        return None;
    }
    let reclen: usize = read_u16(data, off + layout.reclen_offset, layout.big_endian);
    if reclen < layout.name_offset || reclen > n - off {
        return None;
    }
    let start: usize = off + layout.name_offset;
    let end: usize = off + reclen;
    let ghost field = data@.subrange(start as int, end as int);
    let mut name_end: usize = start;
    match layout.namlen_offset {
        Some(m) => {
            let len: usize = read_u16(data, off + m, layout.big_endian);
            if len > end - start {
                return None;
            }
            name_end = start + len;
        },
        None => {
            while name_end < end && data[name_end] != 0
                invariant
                    start <= name_end <= end <= data@.len(),
                    field == data@.subrange(start as int, end as int),
                    forall|j: int| 0 <= j < name_end - start ==> field[j] != 0,
                decreases end - name_end,
            {
                name_end += 1;
            }
            proof {
                if name_end < end {
                    assert(field[name_end - start] == 0);
                }
                lemma_nul_index_is(field, name_end - start);
            }
        },
    }
    let name: &[u8] = slice_subrange(data, start, name_end);
    proof {
        assert(name@ =~= field.take(name_end - start));
    }
    Some((parse_int_bytes(name), reclen))
}

/// How many bytes of directory records a listing cursor can hold at a time.
pub const LISTING_BUF_LEN: usize = 1048;

/// What a listing cursor has asked for and not yet been answered.
#[derive(Clone, Copy, Debug, PartialEq, Eq, Structural)]
pub enum Awaiting {
    /// Nothing.
    Nothing,
    /// More records.
    Read,
    /// The directory closed, after its end was reached.
    CloseAtEnd,
    /// The directory closed, after a read failed or a record could not be read.
    CloseOnError,
}

/// What walking the held records from some offset comes to.
pub enum Scan {
    /// The next record that names a descriptor to hand out.
    Entry(i32),
    /// The held records are used up.
    NeedRead,
    /// No whole record can be read at the offset.
    Malformed,
}

/// Walks the records in `data` from `off` to the first one that names a
/// descriptor at or above `minfd` other than `dirfd`, and says where the walk
/// stands afterwards.
pub open spec fn scan_spec(layout: DirentLayout, data: Seq<u8>, off: int, minfd: i32, dirfd: i32) -> (
    int,
    Scan,
)
    decreases data.len() - off,
{
    if off >= data.len() {
        (off, Scan::NeedRead)
    } else if !record_ok(layout, data, off) {
        (off, Scan::Malformed)
    } else {
        let next = off + record_len(layout, data, off);
        match record_fd(layout, data, off) {
            Some(fd) if fd >= minfd && fd != dirfd => (next, Scan::Entry(fd)),
            _ => scan_spec(layout, data, next, minfd, dirfd),
        }
    }
}

/// How many of the held records from `off` on name a descriptor at or above
/// `minfd` other than `dirfd`, up to the first record that cannot be read.
pub open spec fn count_entries(
    layout: DirentLayout,
    data: Seq<u8>,
    off: int,
    minfd: i32,
    dirfd: i32,
) -> nat
    decreases data.len() - off,
{
    if off >= data.len() || !record_ok(layout, data, off) {
        0
    } else {
        let next = off + record_len(layout, data, off);
        let rest = count_entries(layout, data, next, minfd, dirfd);
        match record_fd(layout, data, off) {
            Some(fd) if fd >= minfd && fd != dirfd => rest + 1,
            _ => rest,
        }
    }
}

/// The state of a listing cursor, as contracts speak of it.
pub struct DirFdIterView {
    /// The lowest descriptor that is handed out.
    pub minfd: i32,
    /// The directory's own descriptor; negative once it has been closed.
    pub dirfd: i32,
    pub layout: DirentLayout,
    /// The records read last.
    pub data: Seq<u8>,
    /// Where in `data` the next record starts.
    pub offset: int,
    pub awaiting: Awaiting,
}

impl DirFdIterView {
    /// What holds of every listing cursor: only an open one waits for a
    /// reply, one that waits for a reply holds no record that it has yet to
    /// hand out, and none holds more records than it has room for.
    pub open spec fn wf(self) -> bool {
        &&& (self.dirfd < 0 ==> self.awaiting is Nothing)
        &&& (!(self.awaiting is Nothing) ==> count_entries(
            self.layout,
            self.data,
            self.offset,
            self.minfd,
            self.dirfd,
        ) == 0)
        &&& self.data.len() <= LISTING_BUF_LEN
    }

    /// How many bytes a read asks for.
    pub open spec fn read_len(self) -> usize {
        if self.layout.read_len < LISTING_BUF_LEN {
            self.layout.read_len
        } else {
            LISTING_BUF_LEN
        }
    }

    /// The cursor once its directory is closed.
    pub open spec fn closed(self) -> DirFdIterView {
        DirFdIterView { dirfd: -1i32, awaiting: Awaiting::Nothing, ..self }
    }

    /// What giving the cursor up comes to: the directory is to be closed where
    /// it is open and its closing has not been asked for already.
    pub open spec fn release(self) -> (DirFdIterView, Option<i32>) {
        if self.dirfd < 0 {
            (self, None)
        } else if self.awaiting is CloseAtEnd || self.awaiting is CloseOnError {
            (self.closed(), None)
        } else {
            (self.closed(), Some(self.dirfd))
        }
    }

    /// The step taken when nothing is awaited: a closed cursor is at its end;
    /// an open one walks its records, and asks for more, or for its directory
    /// to be closed, where they do not yield a descriptor.
    pub open spec fn resume(self) -> (DirFdIterView, Poll<Result<Option<i32>, ()>>) {
        if self.dirfd < 0 {
            (self, Poll::Ready(Ok(None)))
        } else {
            let (off, scan) = scan_spec(self.layout, self.data, self.offset, self.minfd, self.dirfd);
            match scan {
                Scan::Entry(fd) => (
                    DirFdIterView { offset: off, ..self },
                    Poll::Ready(Ok(Some(fd))),
                ),
                Scan::NeedRead => (
                    DirFdIterView { offset: off, awaiting: Awaiting::Read, ..self },
                    Poll::Pending(Request::ReadListing { dirfd: self.dirfd, len: self.read_len() }),
                ),
                Scan::Malformed => (
                    DirFdIterView { offset: off, awaiting: Awaiting::CloseOnError, ..self },
                    Poll::Pending(Request::CloseListing { dirfd: self.dirfd }),
                ),
            }
        }
    }

    /// One step of the cursor on the reply to what it asked last. A read that
    /// brought records goes on with them; one that brought none ends the
    /// listing, and any other answer fails it; either way the directory is
    /// closed before the outcome is reported.
    pub open spec fn next(self, reply: Reply) -> (DirFdIterView, Poll<Result<Option<i32>, ()>>) {
        match self.awaiting {
            Awaiting::Nothing => self.resume(),
            Awaiting::CloseAtEnd => (self.closed(), Poll::Ready(Ok(None))),
            Awaiting::CloseOnError => (self.closed(), Poll::Ready(Err(()))),
            Awaiting::Read => match reply {
                Reply::Data(n, bytes) if 0 < n <= bytes@.len() && n <= LISTING_BUF_LEN => (
                    DirFdIterView {
                        data: bytes@.take(n as int),
                        offset: 0,
                        awaiting: Awaiting::Nothing,
                        ..self
                    }
                ).resume(),
                Reply::Data(n, _) if n == 0 => (
                    DirFdIterView { awaiting: Awaiting::CloseAtEnd, ..self },
                    Poll::Pending(Request::CloseListing { dirfd: self.dirfd }),
                ),
                _ => (
                    DirFdIterView { awaiting: Awaiting::CloseOnError, ..self },
                    Poll::Pending(Request::CloseListing { dirfd: self.dirfd }),
                ),
            },
        }
    }

    /// The bounds on how many descriptors are still to come.
    pub open spec fn size_hint(self) -> (usize, Option<usize>) {
        if self.dirfd < 0 {
            (0, Some(0))
        } else {
            (
                count_entries(self.layout, self.data, self.offset, self.minfd, self.dirfd) as usize,
                Some(FD_NUMBERS),
            )
        }
    }
}

/// A walk that ends at a record moves past it, and the descriptor it finds is
/// at or above `minfd` and is not `dirfd`; any walk stays at or moves forward,
/// and one that finds no record stops where none is left to count.
pub proof fn lemma_scan(layout: DirentLayout, data: Seq<u8>, off: int, minfd: i32, dirfd: i32)
    ensures
        ({
            let (next, scan) = scan_spec(layout, data, off, minfd, dirfd);
            &&& off <= next
            &&& (scan matches Scan::Entry(fd) ==> fd >= minfd && fd != dirfd && off < next
                <= data.len())
            &&& (!(scan is Entry) ==> count_entries(layout, data, next, minfd, dirfd) == 0)
        }),
    decreases data.len() - off,
{
    if off < data.len() && record_ok(layout, data, off) {
        lemma_scan(layout, data, off + record_len(layout, data, off), minfd, dirfd);
    }
}

/// A step of a listing cursor changes neither its threshold nor its layout,
/// and leaves its directory as it is or marks it closed. A descriptor that it
/// hands out is at or above the threshold and is not the directory itself. A
/// well-formed cursor stays well formed.
pub proof fn lemma_listing_step(s: DirFdIterView, reply: Reply)
    ensures
        ({
            let (t, r) = s.next(reply);
            &&& (s.wf() ==> t.wf())
            &&& t.minfd == s.minfd
            &&& t.layout == s.layout
            &&& (t.dirfd == s.dirfd || t.dirfd == -1)
            &&& (r matches Poll::Ready(Ok(Some(fd))) ==> fd >= s.minfd && fd != s.dirfd && s.dirfd
                >= 0)
        }),
{
    lemma_scan(s.layout, s.data, s.offset, s.minfd, s.dirfd);
    if let Reply::Data(n, bytes) = reply {
        lemma_scan(s.layout, bytes@.take(n as int), 0, s.minfd, s.dirfd);
    }
}

/// A cursor over the descriptors that a directory of the kernel lists. It
/// holds the records read last and hands out, one at a time, the descriptors
/// they name.
pub struct DirFdIter {
    minfd: i32,
    dirfd: i32,
    layout: DirentLayout,
    buf: [u8; LISTING_BUF_LEN],
    nbytes: usize,
    offset: usize,
    awaiting: Awaiting,
}

impl View for DirFdIter {
    type V = DirFdIterView;

    closed spec fn view(&self) -> DirFdIterView {
        DirFdIterView {
            minfd: self.minfd,
            dirfd: self.dirfd,
            layout: self.layout,
            data: self.buf@.take(self.nbytes as int),
            offset: self.offset as int,
            awaiting: self.awaiting,
        }
    }
}

impl DirFdIter {
    #[verifier::type_invariant]
    spec fn inv(self) -> bool {
        &&& self.nbytes <= LISTING_BUF_LEN
        &&& self@.wf()
    }

    /// Makes a cursor of what opening the directory returned: there is one
    /// exactly when `dirfd` is a descriptor. It holds no records yet and hands
    /// out the descriptors at or above `minfd`.
    pub fn open(minfd: i32, dirfd: i32, layout: DirentLayout) -> (r: Option<Self>)
        ensures
            r is Some <==> dirfd >= 0,
            r is Some ==> r->Some_0@ == (DirFdIterView {
                minfd,
                dirfd,
                layout,
                data: Seq::<u8>::empty(),
                offset: 0,
                awaiting: Awaiting::Nothing,
            }),
            r is Some ==> r->Some_0@.wf(),
    {
        if dirfd >= 0 {
            let it = DirFdIter {
                minfd,
                dirfd,
                layout,
                buf: [0u8; LISTING_BUF_LEN],
                nbytes: 0,
                offset: 0,
                awaiting: Awaiting::Nothing,
            };
            proof {
                assert(it.buf@.take(0) =~= Seq::<u8>::empty());
            }
            Some(it)
        } else {
            None
        }
    }

    /// The directory's descriptor while it is open.
    pub fn handle(&self) -> (r: Option<i32>)
        ensures
            r == (if self@.dirfd >= 0 {
                Some(self@.dirfd)
            } else {
                None
            }),
    {
        if self.dirfd >= 0 {
            Some(self.dirfd)
        } else {
            None
        }
    }

    /// Gives the cursor up: marks the directory closed and hands out its
    /// descriptor where the caller has yet to close it.
    pub fn release(&mut self) -> (r: Option<i32>)
        ensures
            (final(self)@, r) == old(self)@.release(),
    {
        proof {
            use_type_invariant(&*self);
        }
        if self.dirfd < 0 {
            return None;
        }
        let asked: bool = matches!(self.awaiting, Awaiting::CloseAtEnd | Awaiting::CloseOnError);
        let dirfd: i32 = self.dirfd;
        self.awaiting = Awaiting::Nothing;
        self.dirfd = -1;
        if asked {
            None
        } else {
            Some(dirfd)
        }
    }

    /// Decodes the held record at `offset`; see [`decode_record`].
    pub fn get_entry_info(&self, offset: usize) -> (r: Option<(Option<i32>, usize)>)
        ensures
            match r {
                Some((fd, reclen)) => record_ok(self@.layout, self@.data, offset as int) && fd
                    == record_fd(self@.layout, self@.data, offset as int) && reclen == record_len(
                    self@.layout,
                    self@.data,
                    offset as int,
                ),
                None => !record_ok(self@.layout, self@.data, offset as int),
            },
    {
        proof {
            use_type_invariant(self);
        }
        let data: &[u8] = slice_subrange(self.buf.as_slice(), 0, self.nbytes);
        decode_record(&self.layout, data, offset)
    }

    fn load(&mut self, bytes: &[u8], n: usize)
        requires
            n <= bytes@.len(),
            n <= LISTING_BUF_LEN,
        ensures
            final(self)@ == (DirFdIterView {
                data: bytes@.take(n as int),
                offset: 0,
                awaiting: Awaiting::Nothing,
                ..old(self)@
            }),
    {
        proof {
            use_type_invariant(&*self);
        }
        self.awaiting = Awaiting::Nothing;
        self.nbytes = 0;
        let mut i: usize = 0;
        while i < n
            invariant
                i <= n <= bytes@.len(),
                n <= LISTING_BUF_LEN,
                self.nbytes == 0,
                self.awaiting is Nothing,
                self.minfd == old(self).minfd,
                self.dirfd == old(self).dirfd,
                self.layout == old(self).layout,
                forall|j: int| 0 <= j < i ==> self.buf@[j] == bytes@[j],
            decreases n - i,
        {
            self.buf[i] = bytes[i];
            i += 1;
        }
        self.nbytes = n;
        self.offset = 0;
        proof {
            assert(self.buf@.take(n as int) =~= bytes@.take(n as int));
        }
    }

    fn scan(&mut self) -> (r: Scan)
        requires
            old(self).awaiting is Nothing,
        ensures
            (final(self)@.offset, r) == scan_spec(
                old(self)@.layout,
                old(self)@.data,
                old(self)@.offset,
                old(self)@.minfd,
                old(self)@.dirfd,
            ),
            final(self)@ == (DirFdIterView { offset: final(self)@.offset, ..old(self)@ }),
    {
        proof {
            use_type_invariant(&*self);
        }
        let ghost start = self@;
        let mut off: usize = self.offset;
        let mut found: Option<Scan> = None;
        while found.is_none()
            invariant
                self.nbytes <= LISTING_BUF_LEN,
                *self == *old(self),
                start == old(self)@,
                found is None ==> off <= self.nbytes || off == self.offset,
                match found {
                    None => scan_spec(start.layout, start.data, start.offset, start.minfd, start.dirfd)
                        == scan_spec(start.layout, start.data, off as int, start.minfd, start.dirfd),
                    Some(res) => scan_spec(
                        start.layout,
                        start.data,
                        start.offset,
                        start.minfd,
                        start.dirfd,
                    ) == (off as int, res),
                },
            decreases
                    (if found is None {
                        1int
                    } else {
                        0int
                    }),
                    self.nbytes - off,
        {
            if off >= self.nbytes {
                found = Some(Scan::NeedRead);
            } else {
                match self.get_entry_info(off) {
                    None => {
                        found = Some(Scan::Malformed);
                    },
                    Some((fd, reclen)) => {
                        off = off + reclen;
                        match fd {
                            Some(fd) if fd >= self.minfd && fd != self.dirfd => {
                                found = Some(Scan::Entry(fd));
                            },
                            _ => {},
                        }
                    },
                }
            }
        }
        self.offset = off;
        match found {
            Some(res) => res,
            None => Scan::NeedRead,
        }
    }

    /// Takes one step: hands out the next descriptor that the directory
    /// lists, or reports its end or its failure, or asks for a kernel call
    /// whose reply the following step expects.
    pub fn next(&mut self, reply: Reply) -> (r: Poll<Result<Option<i32>, ()>>)
        ensures
            (final(self)@, r) == old(self)@.next(reply),
            old(self)@.wf(),
            final(self)@.wf(),
    {
        proof {
            use_type_invariant(&*self);
        }
        match self.awaiting {
            Awaiting::Nothing => {},
            Awaiting::CloseAtEnd => {
                self.awaiting = Awaiting::Nothing;
                self.dirfd = -1;
                return Poll::Ready(Ok(None));
            },
            Awaiting::CloseOnError => {
                self.awaiting = Awaiting::Nothing;
                self.dirfd = -1;
                return Poll::Ready(Err(()));
            },
            Awaiting::Read => {
                match reply {
                    Reply::Data(n, bytes) if 0 < n && n <= LISTING_BUF_LEN as i64 && n as usize
                        <= bytes.len() => {
                        self.load(bytes, n as usize);
                    },
                    Reply::Data(n, _) if n == 0 => {
                        self.awaiting = Awaiting::CloseAtEnd;
                        return Poll::Pending(Request::CloseListing { dirfd: self.dirfd });
                    },
                    _ => {
                        self.awaiting = Awaiting::CloseOnError;
                        return Poll::Pending(Request::CloseListing { dirfd: self.dirfd });
                    },
                }
            },
        }
        if self.dirfd < 0 {
            return Poll::Ready(Ok(None));
        }
        proof {
            lemma_scan(self@.layout, self@.data, self@.offset, self@.minfd, self@.dirfd);
        }
        let scan = self.scan();
        proof {
            use_type_invariant(&*self);
        }
        match scan {
            Scan::Entry(fd) => Poll::Ready(Ok(Some(fd))),
            Scan::NeedRead => {
                self.awaiting = Awaiting::Read;
                let len: usize = if self.layout.read_len < LISTING_BUF_LEN {
                    self.layout.read_len
                } else {
                    LISTING_BUF_LEN
                };
                Poll::Pending(Request::ReadListing { dirfd: self.dirfd, len })
            },
            Scan::Malformed => {
                self.awaiting = Awaiting::CloseOnError;
                Poll::Pending(Request::CloseListing { dirfd: self.dirfd })
            },
        }
    }

    /// Bounds on how many descriptors are still to come: none once the
    /// directory is closed; otherwise at least those that the held records
    /// name, and no more than there are descriptor numbers.
    pub fn size_hint(&self) -> (r: (usize, Option<usize>))
        ensures
            r == self@.size_hint(),
    {
        proof {
            use_type_invariant(self);
        }
        if self.dirfd < 0 {
            return (0, Some(0));
        }
        let mut low: usize = 0;
        let mut off: usize = self.offset;
        let mut done: bool = false;
        let ghost total = count_entries(
            self@.layout,
            self@.data,
            self@.offset,
            self@.minfd,
            self@.dirfd,
        );
        while !done && off < self.nbytes
            invariant
                self.nbytes <= LISTING_BUF_LEN,
                self.offset <= off,
                off <= self.nbytes || off == self.offset,
                low <= off - self.offset,
                done ==> total == low,
                !done ==> total == low + count_entries(
                    self@.layout,
                    self@.data,
                    off as int,
                    self@.minfd,
                    self@.dirfd,
                ),
            decreases
                    (if done {
                        0int
                    } else {
                        1int
                    }),
                    self.nbytes - off,
        {
            match self.get_entry_info(off) {
                None => {
                    done = true;
                },
                Some((fd, reclen)) => {
                    off = off + reclen;
                    match fd {
                        Some(fd) if fd >= self.minfd && fd != self.dirfd => {
                            low = low + 1;
                        },
                        _ => {},
                    }
                },
            }
        }
        (low, Some(FD_NUMBERS))
    }
}

} // verus!
