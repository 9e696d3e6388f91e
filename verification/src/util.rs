//! Keep-list preprocessing: inspecting a keep-list, shrinking it against a
//! threshold, membership tests during an ascending walk, and the ranges that
//! lie between kept descriptors.

use crate::sys::FD_CLOEXEC;
use vstd::prelude::*;
use vstd::slice::slice_subrange;

verus! {

/// `s` is in ascending order; equal neighbours are allowed.
pub open spec fn is_sorted(s: Seq<i32>) -> bool {
    forall|i: int, j: int| 0 <= i <= j < s.len() ==> s[i] <= s[j]
}

/// Extending an ascending sequence by one element keeps it ascending exactly
/// when the new element is not below the previous last one.
pub proof fn lemma_sorted_push(s: Seq<i32>, n: int)
    requires
        0 <= n < s.len(),
    ensures
        is_sorted(s.take(n + 1)) == (is_sorted(s.take(n)) && (n > 0 ==> s[n - 1] <= s[n])),
{
    let a = s.take(n);
    let b = s.take(n + 1);
    if is_sorted(b) {
        assert forall|i: int, j: int| 0 <= i <= j < a.len() implies a[i] <= a[j] by {
            assert(b[i] <= b[j]);
        }
        if n > 0 {
            assert(b[n - 1] <= b[n]);
        }
    }
    if is_sorted(a) && (n > 0 ==> s[n - 1] <= s[n]) {
        assert forall|i: int, j: int| 0 <= i <= j < b.len() implies b[i] <= b[j] by {
            if j < n {
                assert(a[i] <= a[j]);
            } else if i < n {
                assert(a[i] <= a[n - 1]);
            }
        }
    }
}

/// The largest element of `s`, and `i32::MIN` where `s` is empty.
pub open spec fn max_of(s: Seq<i32>) -> i32
    decreases s.len(),
{
    if s.len() == 0 {
        i32::MIN
    } else if s.last() > max_of(s.drop_last()) {
        s.last()
    } else {
        max_of(s.drop_last())
    }
}

/// `max_of` is an element of a sequence that has one, and no element exceeds
/// it.
pub proof fn lemma_max_of(s: Seq<i32>)
    ensures
        s.len() > 0 ==> s.contains(max_of(s)),
        forall|i: int| 0 <= i < s.len() ==> s[i] <= max_of(s),
    decreases s.len(),
{
    if s.len() > 0 {
        let t = s.drop_last();
        lemma_max_of(t);
        if s.last() > max_of(t) {
            assert(s[s.len() - 1] == max_of(s));
        } else if t.len() > 0 {
            let j = choose|j: int| 0 <= j < t.len() && t[j] == max_of(t);
            assert(s[j] == max_of(s));
        }
        assert forall|i: int| 0 <= i < s.len() implies s[i] <= max_of(s) by {
            if i < t.len() {
                assert(t[i] <= max_of(t));
            }
        }
    }
}

/// Scans a keep-list once and reports its largest element (`i32::MIN` for an
/// empty list) and whether it is in ascending order.
pub fn inspect_keep_fds(keep_fds: &[i32]) -> (r: (i32, bool))
    ensures
        r.0 == max_of(keep_fds@),
        keep_fds@.len() == 0 ==> r.0 == i32::MIN,
        keep_fds@.len() > 0 ==> keep_fds@.contains(r.0),
        forall|i: int| 0 <= i < keep_fds@.len() ==> keep_fds@[i] <= r.0,
        r.1 == is_sorted(keep_fds@),
{
    let mut max_keep_fd: i32 = i32::MIN;
    let mut last_fd: i32 = i32::MIN;
    let mut fds_sorted: bool = true;
    let mut i: usize = 0;
    while i < keep_fds.len()
        invariant
            i <= keep_fds@.len(),
            i == 0 ==> max_keep_fd == i32::MIN && last_fd == i32::MIN,
            max_keep_fd == max_of(keep_fds@.take(i as int)),
            i > 0 ==> last_fd == keep_fds@[i - 1],
            i > 0 ==> exists|j: int| 0 <= j < i && keep_fds@[j] == max_keep_fd,
            forall|j: int| 0 <= j < i ==> keep_fds@[j] <= max_keep_fd,
            fds_sorted == is_sorted(keep_fds@.take(i as int)),
        decreases keep_fds@.len() - i,
    {
        let fd: i32 = keep_fds[i];
        proof {
            lemma_sorted_push(keep_fds@, i as int);
            assert(keep_fds@.take(i + 1).drop_last() =~= keep_fds@.take(i as int));
            assert(keep_fds@.take(i + 1).last() == fd);
            if i > 0 && fds_sorted {
                let j = choose|j: int| 0 <= j < i && keep_fds@[j] == max_keep_fd;
                assert(keep_fds@.take(i as int)[j] <= keep_fds@.take(i as int)[i - 1]);
            }
        }
        if fd > max_keep_fd {
            max_keep_fd = fd;
        } else if last_fd > fd {
            fds_sorted = false;
        }
        last_fd = fd;
        i += 1;
    }
    proof {
        assert(keep_fds@.take(i as int) =~= keep_fds@);
    }
    (max_keep_fd, fds_sorted)
}

/// What shrinking leaves of a keep-list `k` and a threshold `t`: leading
/// elements below the threshold are dropped, and a leading element equal to it
/// is dropped while the threshold moves up by one. The walk stops at the first
/// element above the threshold, and also when the threshold cannot move up.
pub open spec fn simplify_spec(k: Seq<i32>, t: int) -> (Seq<i32>, int)
    decreases k.len(),
{
    if k.len() == 0 || k[0] > t || (k[0] == t && t >= i32::MAX) {
        (k, t)
    } else if k[0] == t {
        simplify_spec(k.skip(1), t + 1)
    } else {
        simplify_spec(k.skip(1), t)
    }
}

/// Shrinking changes neither which descriptors are kept nor which are acted
/// on: a descriptor is at or above the old threshold and outside the old list
/// exactly when it is at or above the new threshold and outside the new list.
/// The new list is a tail of the old one and the threshold never moves down.
pub proof fn lemma_simplify_preserves(k: Seq<i32>, t: int)
    ensures
        ({
            let (r, u) = simplify_spec(k, t);
            &&& t <= u
            &&& (t <= i32::MAX ==> u <= i32::MAX)
            &&& exists|n: int| 0 <= n <= k.len() && r == k.skip(n)
            &&& forall|fd: i32| (fd >= t && !k.contains(fd)) <==> (fd >= u && !r.contains(fd))
        }),
    decreases k.len(),
{
    let (r, u) = simplify_spec(k, t);
    if k.len() == 0 || k[0] > t || (k[0] == t && t >= i32::MAX) {
        assert(k.skip(0) =~= k);
    } else {
        let rest = k.skip(1);
        let t1 = if k[0] == t { t + 1 } else { t };
        lemma_simplify_preserves(rest, t1);
        let n = choose|n: int| 0 <= n <= rest.len() && r == rest.skip(n);
        assert(rest.skip(n) =~= k.skip(n + 1));
        assert forall|fd: i32| (fd >= t && !k.contains(fd)) <==> (fd >= u && !r.contains(fd)) by {
            assert((fd >= t1 && !rest.contains(fd)) <==> (fd >= u && !r.contains(fd)));
            if rest.contains(fd) {
                let j = choose|j: int| 0 <= j < rest.len() && rest[j] == fd;
                assert(k[j + 1] == fd);
            }
            if k.contains(fd) && fd != k[0] {
                let j = choose|j: int| 0 <= j < k.len() && k[j] == fd;
                assert(rest[j - 1] == fd);
            }
            if fd == k[0] {
                assert(k[0] == fd);
            }
        }
    }
}

/// Shrinks a keep-list that is known to be ascending against the threshold
/// `minfd`, so that later work starts higher and looks at fewer elements. A
/// list that is not known to be ascending is handed back untouched.
pub fn simplify_keep_fds<'a>(keep_fds: &'a [i32], fds_sorted: bool, minfd: &mut i32) -> (r: &'a [i32])
    ensures
        !fds_sorted ==> r@ == keep_fds@ && *final(minfd) == *old(minfd),
        fds_sorted ==> (r@, *final(minfd) as int) == simplify_spec(
            keep_fds@,
            *old(minfd) as int,
        ),
{
    if !fds_sorted {
        return keep_fds;
    }
    let mut i: usize = 0;
    let mut done: bool = false;
    proof {
        assert(keep_fds@.skip(0) =~= keep_fds@);
    }
    while !done && i < keep_fds.len()
        invariant
            i <= keep_fds@.len(),
            simplify_spec(keep_fds@, *old(minfd) as int) == simplify_spec(
                keep_fds@.skip(i as int),
                *minfd as int,
            ),
            done ==> simplify_spec(keep_fds@.skip(i as int), *minfd as int) == (
                keep_fds@.skip(i as int),
                *minfd as int,
            ),
        decreases keep_fds@.len() - i, (if done { 0int } else { 1int }),
    {
        let first: i32 = keep_fds[i];
        proof {
            assert(keep_fds@.skip(i as int)[0] == first);
            assert(keep_fds@.skip(i as int).skip(1) =~= keep_fds@.skip(i + 1));
        }
        if first > *minfd || (first == *minfd && *minfd == i32::MAX) {
            done = true;
        } else {
            if first == *minfd {
                *minfd += 1;
            }
            i += 1;
        }
    }
    slice_subrange(keep_fds, i, keep_fds.len())
}

/// How many leading elements of `k` lie below `fd`. This is how far a walk
/// over an ascending keep-list moves when it is asked about `fd`.
pub open spec fn count_below(k: Seq<i32>, fd: i32) -> int
    decreases k.len(),
{
    if k.len() > 0 && k[0] < fd {
        1 + count_below(k.skip(1), fd)
    } else {
        0
    }
}

/// The leading elements counted by `count_below` are below `fd`, and the one
/// after them, where there is one, is not.
pub proof fn lemma_count_below(k: Seq<i32>, fd: i32)
    ensures
        0 <= count_below(k, fd) <= k.len(),
        forall|j: int| 0 <= j < count_below(k, fd) ==> k[j] < fd,
        count_below(k, fd) < k.len() ==> k[count_below(k, fd)] >= fd,
    decreases k.len(),
{
    if k.len() > 0 && k[0] < fd {
        let rest = k.skip(1);
        lemma_count_below(rest, fd);
        assert forall|j: int| 0 <= j < count_below(k, fd) implies k[j] < fd by {
            if j > 0 {
                assert(rest[j - 1] < fd);
            }
        }
        if count_below(k, fd) < k.len() {
            assert(rest[count_below(rest, fd)] >= fd);
        }
    }
}

/// On an ascending keep-list the walk answers as a plain search would, and what
/// it leaves behind still holds every element at or above `fd`, in order, and
/// no other.
pub proof fn lemma_walk_sorted(k: Seq<i32>, fd: i32)
    requires
        is_sorted(k),
    ensures
        ({
            let rest = k.skip(count_below(k, fd));
            &&& is_sorted(rest)
            &&& (rest.len() > 0 && rest[0] == fd) == k.contains(fd)
            &&& forall|x: i32| x >= fd ==> (rest.contains(x) <==> k.contains(x))
            &&& forall|i: int| 0 <= i < rest.len() ==> rest[i] >= fd
        }),
{
    lemma_count_below(k, fd);
    let n = count_below(k, fd);
    let rest = k.skip(n);
    assert forall|i: int, j: int| 0 <= i <= j < rest.len() implies rest[i] <= rest[j] by {
        assert(k[i + n] <= k[j + n]);
    }
    assert forall|x: i32| x >= fd implies (rest.contains(x) <==> k.contains(x)) by {
        if rest.contains(x) {
            let j = choose|j: int| 0 <= j < rest.len() && rest[j] == x;
            assert(k[j + n] == x);
        }
        if k.contains(x) {
            let j = choose|j: int| 0 <= j < k.len() && k[j] == x;
            assert(j >= n);
            assert(rest[j - n] == x);
        }
    }
    if rest.len() > 0 && rest[0] == fd {
        assert(k[n] == fd);
    }
    if k.contains(fd) {
        let j = choose|j: int| 0 <= j < k.len() && k[j] == fd;
        assert(j >= n);
        assert(k[n] <= k[j]);
        assert(rest[0] == k[n]);
    }
    assert forall|i: int| 0 <= i < rest.len() implies rest[i] >= fd by {
        assert(k[n] <= k[i + n]);
    }
}

/// Says whether `fd` is in the keep-list. With `fds_sorted` the list is walked
/// as a cursor: every leading element below `fd` is dropped for good, so that
/// the list is left empty where all its elements are below `fd`, and `fd` is
/// kept exactly when it is the head of what is left. That is sound when the
/// list is ascending and the questions come in ascending order. Without
/// `fds_sorted` the whole list is searched and left as it is.
#[verifier::loop_isolation(false)]
pub fn check_should_keep(keep_fds: &mut &[i32], fd: i32, fds_sorted: bool) -> (r: bool)
    ensures
        !fds_sorted ==> final(keep_fds)@ == old(keep_fds)@ && r == old(keep_fds)@.contains(fd),
        fds_sorted ==> final(keep_fds)@ == old(keep_fds)@.skip(count_below(old(keep_fds)@, fd))
            && r == (final(keep_fds)@.len() > 0 && final(keep_fds)@[0] == fd),
        fds_sorted && is_sorted(old(keep_fds)@) ==> r == old(keep_fds)@.contains(fd),
{
    let list: &[i32] = *keep_fds;
    if fds_sorted {
        let mut i: usize = 0;
        proof {
            assert(list@.skip(0) =~= list@);
        }
        while i < list.len() && list[i] < fd
            invariant
                i <= list@.len(),
                count_below(list@, fd) == i + count_below(list@.skip(i as int), fd),
            decreases list@.len() - i,
        {
            proof {
                assert(list@.skip(i as int)[0] == list@[i as int]);
                assert(list@.skip(i as int).skip(1) =~= list@.skip(i + 1));
            }
            i += 1;
        }
        proof {
            if i < list@.len() {
                assert(list@.skip(i as int)[0] == list@[i as int]);
            } else {
                assert(list@.skip(i as int).len() == 0);
            }
            if is_sorted(list@) {
                lemma_walk_sorted(list@, fd);
            }
        }
        *keep_fds = slice_subrange(list, i, list.len());
        i < list.len() && list[i] == fd
    } else {
        let mut i: usize = 0;
        while i < list.len()
            invariant
                i <= list@.len(),
                forall|j: int| 0 <= j < i ==> list@[j] != fd,
            decreases list@.len() - i,
        {
            if list[i] == fd {
                return true;
            }
            i += 1;
        }
        false
    }
}

/// The closed ranges at or above `low` that hold no element of the keep-list
/// `k`: the stretch before the first kept value, the stretch between each two
/// kept values that are not neighbours, and the stretch from the last kept
/// value to `i32::MAX`. Kept values below `low` play no part.
pub open spec fn gaps_from(low: int, k: Seq<i32>) -> Seq<(int, int)>
    decreases k.len(),
{
    if k.len() == 0 {
        if low <= i32::MAX {
            seq![(low, i32::MAX as int)]
        } else {
            Seq::<(int, int)>::empty()
        }
    } else if k[0] < low {
        gaps_from(low, k.skip(1))
    } else if k[0] == low {
        gaps_from(low + 1, k.skip(1))
    } else {
        seq![(low, k[0] - 1)] + gaps_from(k[0] + 1, k.skip(1))
    }
}

/// `x` lies in one of the ranges of `g`.
pub open spec fn in_gaps(g: Seq<(int, int)>, x: int) -> bool {
    exists|i: int| 0 <= i < g.len() && (#[trigger] g[i]).0 <= x <= g[i].1
}

/// Every range is non-empty and lies between `low` and `i32::MAX`; the ranges
/// ascend, and between two consecutive ones at least one number is left out,
/// so no two of them could be joined into one.
pub proof fn lemma_gaps_shape(low: int, k: Seq<i32>)
    ensures
        ({
            let g = gaps_from(low, k);
            &&& forall|i: int| 0 <= i < g.len() ==> low <= (#[trigger] g[i]).0 <= g[i].1 <= i32::MAX
            &&& forall|i: int, j: int|
                0 <= i < j < g.len() ==> (#[trigger] g[i]).1 + 1 < (#[trigger] g[j]).0
        }),
    decreases k.len(),
{
    let g = gaps_from(low, k);
    if k.len() == 0 {
        if low <= i32::MAX {
            assert(g[0] == (low, i32::MAX as int));
            assert(g.len() == 1);
        } else {
            assert(g.len() == 0);
        }
    } else if k[0] < low {
        lemma_gaps_shape(low, k.skip(1));
        assert(g == gaps_from(low, k.skip(1)));
    } else if k[0] == low {
        lemma_gaps_shape(low + 1, k.skip(1));
        assert(g == gaps_from(low + 1, k.skip(1)));
    } else {
        let h = gaps_from(k[0] + 1, k.skip(1));
        lemma_gaps_shape(k[0] + 1, k.skip(1));
        assert(g == seq![(low, k[0] - 1)] + h);
        assert(g[0] == (low, k[0] - 1));
        assert forall|i: int| 0 <= i < g.len() implies low <= (#[trigger] g[i]).0 <= g[i].1
            <= i32::MAX by {
            if i > 0 {
                assert(g[i] == h[i - 1]);
            }
        }
        assert forall|i: int, j: int| 0 <= i < j < g.len() implies (#[trigger] g[i]).1 + 1 < (
        #[trigger] g[j]).0 by {
            assert(g[j] == h[j - 1]);
            if i > 0 {
                assert(g[i] == h[i - 1]);
            }
        }
    }
}

/// For an ascending keep-list the ranges hold exactly the descriptors at or
/// above `low` that are not kept.
pub proof fn lemma_gaps_cover(low: int, k: Seq<i32>)
    requires
        is_sorted(k),
    ensures
        forall|x: i32| in_gaps(gaps_from(low, k), x as int) <==> (low <= x && !k.contains(x)),
    decreases k.len(),
{
    let g = gaps_from(low, k);
    if k.len() == 0 {
        assert forall|x: i32| in_gaps(g, x as int) <==> (low <= x && !k.contains(x)) by {
            if low <= x {
                assert(g[0].0 <= x <= g[0].1);
            }
        }
    } else {
        let rest = k.skip(1);
        let low1 = if k[0] < low {
            low
        } else {
            k[0] + 1
        };
        let h = gaps_from(low1, rest);
        assert forall|i: int, j: int| 0 <= i <= j < rest.len() implies rest[i] <= rest[j] by {
            assert(k[i + 1] <= k[j + 1]);
        }
        lemma_gaps_cover(low1, rest);
        lemma_gaps_shape(low1, rest);
        assert forall|x: i32| in_gaps(g, x as int) <==> (low <= x && !k.contains(x)) by {
            assert(in_gaps(h, x as int) <==> (low1 <= x && !rest.contains(x)));
            if rest.contains(x) {
                let j = choose|j: int| 0 <= j < rest.len() && rest[j] == x;
                assert(k[j + 1] == x);
                assert(k[0] <= k[j + 1]);
            }
            if k.contains(x) {
                let j = choose|j: int| 0 <= j < k.len() && k[j] == x;
                assert(k[0] <= k[j]);
                if j > 0 {
                    assert(rest[j - 1] == x);
                }
            }
            if in_gaps(h, x as int) {
                let i = choose|i: int| 0 <= i < h.len() && (#[trigger] h[i]).0 <= x <= h[i].1;
                if k[0] > low {
                    assert(g[i + 1] == h[i]);
                }
            }
            if in_gaps(g, x as int) {
                let i = choose|i: int| 0 <= i < g.len() && (#[trigger] g[i]).0 <= x <= g[i].1;
                if k[0] > low && i > 0 {
                    assert(g[i] == h[i - 1]);
                }
            }
            if k[0] > low && low <= x < k[0] {
                assert(g[0].0 <= x <= g[0].1);
            }
            assert(k[0] == k[0]);
        }
    }
}

/// A walk over the ranges between kept descriptors, one range at a time and
/// without storage of its own.
pub struct Gaps<'a> {
    keep_fds: &'a [i32],
    low: i64,
}

impl<'a> Gaps<'a> {
    #[verifier::type_invariant]
    spec fn inv(self) -> bool {
        i32::MIN <= self.low <= i32::MAX + 1
    }

    /// The ranges that the walk has yet to hand out, in order.
    pub closed spec fn remaining(&self) -> Seq<(int, int)> {
        gaps_from(self.low as int, self.keep_fds@)
    }

    /// Starts a walk over the ranges at or above `minfd` that `keep_fds` leaves
    /// free.
    pub fn new(minfd: i32, keep_fds: &'a [i32]) -> (g: Self)
        ensures
            g.remaining() == gaps_from(minfd as int, keep_fds@),
    {
        Gaps { keep_fds, low: minfd as i64 }
    }

    /// Hands out the next range, or `None` once all have been handed out.
    pub fn next(&mut self) -> (r: Option<(i32, i32)>)
        ensures
            match r {
                Some((lo, hi)) => old(self).remaining().len() > 0 && old(self).remaining()[0] == (
                    lo as int,
                    hi as int,
                ) && final(self).remaining() == old(self).remaining().skip(1),
                None => old(self).remaining().len() == 0 && final(self).remaining().len() == 0,
            },
    {
        proof {
            use_type_invariant(&*self);
        }
        let list: &'a [i32] = self.keep_fds;
        let start: i64 = self.low;
        let mut low: i64 = start;
        let mut i: usize = 0;
        proof {
            assert(list@.skip(0) =~= list@);
        }
        while i < list.len() && (list[i] as i64) <= low
            invariant
                i <= list@.len(),
                i32::MIN <= low <= i32::MAX + 1,
                gaps_from(start as int, list@) == gaps_from(low as int, list@.skip(i as int)),
            decreases list@.len() - i,
        {
            proof {
                assert(list@.skip(i as int)[0] == list@[i as int]);
                assert(list@.skip(i as int).skip(1) =~= list@.skip(i + 1));
            }
            if (list[i] as i64) == low {
                low = low + 1;
            }
            i += 1;
        }
        let ghost g = gaps_from(low as int, list@.skip(i as int));
        if i < list.len() {
            let k: i32 = list[i];
            proof {
                assert(list@.skip(i as int)[0] == k);
                assert(list@.skip(i as int).skip(1) =~= list@.skip(i + 1));
                let h = gaps_from(k + 1, list@.skip(i + 1));
                assert(g == seq![(low as int, k - 1)] + h);
                assert(g.skip(1) =~= h);
                assert(g[0] == (low as int, k - 1));
            }
            *self = Gaps { keep_fds: slice_subrange(list, i + 1, list.len()), low: k as i64 + 1 };
            Some((low as i32, k - 1))
        } else if low <= i32::MAX as i64 {
            proof {
                assert(g == seq![(low as int, i32::MAX as int)]);
                assert(g[0] == (low as int, i32::MAX as int));
                assert(g.skip(1) =~= gaps_from(i32::MAX + 1, list@.skip(i as int)));
            }
            *self = Gaps { keep_fds: slice_subrange(list, i, list.len()), low: i32::MAX as i64 + 1 };
            Some((low as i32, i32::MAX))
        } else {
            *self = Gaps { keep_fds: slice_subrange(list, i, list.len()), low };
            None
        }
    }
}

/// Some call of `func` on the range from `lo` to `hi` may succeed.
pub open spec fn accepts<F: FnMut(i32, i32) -> Result<(), ()>>(func: F, lo: int, hi: int) -> bool {
    exists|res: Result<(), ()>|
        res is Ok && #[trigger] call_ensures(func, (lo as i32, hi as i32), res)
}

/// Some call of `func` on the range from `lo` to `hi` may fail.
pub open spec fn refuses<F: FnMut(i32, i32) -> Result<(), ()>>(func: F, lo: int, hi: int) -> bool {
    exists|res: Result<(), ()>|
        res is Err && #[trigger] call_ensures(func, (lo as i32, hi as i32), res)
}

/// Calls `func` on each range at or above `minfd` that the ascending keep-list
/// `keep_fds` leaves free, lowest first, and stops at the first call that
/// fails. An `Ok` says that every range was accepted; an `Err` says that one
/// range was refused after all those below it had been accepted. `func` has to
/// take these ranges and no other: it is called on nothing else.
pub fn apply_range<F: FnMut(i32, i32) -> Result<(), ()>>(
    minfd: i32,
    keep_fds: &[i32],
    mut func: F,
) -> (r: Result<(), ()>)
    requires
        forall|i: int|
            0 <= i < gaps_from(minfd as int, keep_fds@).len() ==> call_requires(
                func,
                (
                    (#[trigger] gaps_from(minfd as int, keep_fds@)[i]).0 as i32,
                    gaps_from(minfd as int, keep_fds@)[i].1 as i32,
                ),
            ),
    ensures
        ({
            let g = gaps_from(minfd as int, keep_fds@);
            match r {
                Ok(_) => forall|i: int|
                    0 <= i < g.len() ==> accepts(func, (#[trigger] g[i]).0, g[i].1),
                Err(_) => exists|n: int|
                    0 <= n < g.len() && refuses(func, (#[trigger] g[n]).0, g[n].1) && forall|i: int|
                        0 <= i < n ==> accepts(func, (#[trigger] g[i]).0, g[i].1),
            }
        }),
{
    let ghost g = gaps_from(minfd as int, keep_fds@);
    let ghost func0 = func;
    let mut gaps = Gaps::new(minfd, keep_fds);
    let mut result: Option<Result<(), ()>> = None;
    let ghost mut n: int = 0;
    proof {
        assert(g.skip(0) =~= g);
    }
    while result.is_none()
        invariant
            0 <= n <= g.len(),
            func == func0,
            result.is_none() ==> gaps.remaining() == g.skip(n),
            g == gaps_from(minfd as int, keep_fds@),
            forall|i: int|
                0 <= i < g.len() ==> call_requires(func, ((#[trigger] g[i]).0 as i32, g[i].1 as i32)),
            forall|i: int| 0 <= i < n ==> accepts(func0, (#[trigger] g[i]).0, g[i].1),
            result matches Some(Ok(_)) ==> n == g.len(),
            result matches Some(Err(_)) ==> n < g.len() && refuses(func0, g[n].0, g[n].1),
        decreases g.len() - n, (if result.is_none() { 1int } else { 0int }),
    {
        match gaps.next() {
            None => {
                proof {
                    assert(g.skip(n).len() == 0);
                }
                result = Some(Ok(()));
            },
            Some((lo, hi)) => {
                proof {
                    assert(g.skip(n)[0] == g[n]);
                    assert(g.skip(n).skip(1) =~= g.skip(n + 1));
                }
                let res = func(lo, hi);
                proof {
                    assert(call_ensures(func0, (g[n].0 as i32, g[n].1 as i32), res));
                }
                match res {
                    Ok(_) => {
                        proof {
                            n = n + 1;
                        }
                    },
                    Err(_) => {
                        result = Some(res);
                    },
                }
            },
        }
    }
    match result {
        Some(r) => r,
        None => Ok(()),
    }
}

/// How many bytes of `s` come before its first zero byte, or its length where
/// it has none.
pub open spec fn nul_index(s: Seq<u8>) -> int
    decreases s.len(),
{
    if s.len() > 0 && s[0] != 0 {
        1 + nul_index(s.skip(1))
    } else {
        0
    }
}

/// `nul_index` stays inside the sequence, no byte before it is zero, and the
/// byte at it, where there is one, is zero.
pub proof fn lemma_nul_index(s: Seq<u8>)
    ensures
        0 <= nul_index(s) <= s.len(),
        forall|j: int| 0 <= j < nul_index(s) ==> s[j] != 0,
        nul_index(s) < s.len() ==> s[nul_index(s)] == 0,
    decreases s.len(),
{
    if s.len() > 0 && s[0] != 0 {
        let rest = s.skip(1);
        lemma_nul_index(rest);
        assert forall|j: int| 0 <= j < nul_index(s) implies s[j] != 0 by {
            if j > 0 {
                assert(rest[j - 1] != 0);
            }
        }
        if nul_index(s) < s.len() {
            assert(rest[nul_index(rest)] == 0);
        }
    }
}

/// Any position with no zero byte before it, which is the end or holds a zero
/// byte, is the `nul_index`.
pub proof fn lemma_nul_index_is(s: Seq<u8>, n: int)
    requires
        0 <= n <= s.len(),
        forall|j: int| 0 <= j < n ==> s[j] != 0,
        n < s.len() ==> s[n] == 0,
    ensures
        nul_index(s) == n,
{
    lemma_nul_index(s);
    let m = nul_index(s);
    if m < n {
        assert(s[m] != 0);
    }
    if n < m {
        assert(s[n] != 0);
    }
}

/// The bytes `Microsoft`, which end the release name of the kernel flavour
/// whose descriptor listing cannot be trusted.
pub open spec fn wsl1_suffix() -> Seq<u8> {
    seq![0x4du8, 0x69u8, 0x63u8, 0x72u8, 0x6fu8, 0x73u8, 0x6fu8, 0x66u8, 0x74u8]
}

/// A release field names that flavour: the name, which is the field up to its
/// first zero byte, ends in `Microsoft`.
pub open spec fn is_wsl_1_spec(release: Seq<u8>) -> bool {
    let name = release.take(nul_index(release));
    name.len() >= 9 && name.skip(name.len() - 9) == wsl1_suffix()
}

fn wsl1_suffix_byte(i: usize) -> (r: u8)
    requires
        i < 9,
    ensures
        r == wsl1_suffix()[i as int],
{
    let bytes: [u8; 9] = [0x4d, 0x69, 0x63, 0x72, 0x6f, 0x73, 0x6f, 0x66, 0x74];
    bytes[i]
}

/// Tells from the release field that the kernel reports of itself whether the
/// process runs on the flavour whose descriptor listing is out of order and
/// incomplete.
pub fn is_wsl_1(release: &[u8]) -> (r: bool)
    ensures
        r == is_wsl_1_spec(release@),
{
    let mut len: usize = 0;
    while len < release.len() && release[len] != 0
        invariant
            len <= release@.len(),
            forall|j: int| 0 <= j < len ==> release@[j] != 0,
        decreases release@.len() - len,
    {
        len += 1;
    }
    proof {
        lemma_nul_index_is(release@, len as int);
    }
    if len < 9 {
        return false;
    }
    let ghost name = release@.take(len as int);
    let mut i: usize = 0;
    while i < 9
        invariant
            i <= 9 <= len <= release@.len(),
            nul_index(release@) == len,
            name == release@.take(len as int),
            forall|j: int| 0 <= j < i ==> name.skip(len - 9)[j] == wsl1_suffix()[j],
        decreases 9 - i,
    {
        if release[len - 9 + i] != wsl1_suffix_byte(i) {
            proof {
                assert(name.skip(len - 9)[i as int] != wsl1_suffix()[i as int]);
            }
            return false;
        }
        i += 1;
    }
    proof {
        assert(name.skip(len - 9) =~= wsl1_suffix());
    }
    true
}

/// Reads what asking for a descriptor's flags returned: the descriptor is
/// open exactly when the call did not fail.
pub fn is_fd_valid(flags: i32) -> (r: bool)
    ensures
        r == (flags >= 0),
{
    flags >= 0
}

/// What is to be written back to mark a descriptor with the given flags
/// close-on-exec: the flags with the mark added, where the flags were read
/// and do not yet hold it, and nothing otherwise.
pub open spec fn set_cloexec_spec(flags: i32) -> Option<i32> {
    if flags >= 0 && flags & FD_CLOEXEC != FD_CLOEXEC {
        Some(flags | FD_CLOEXEC)
    } else {
        None
    }
}

/// Decides from the flags of a descriptor what to write back to mark it
/// close-on-exec: the flags with the mark added, where the descriptor is open
/// and not yet marked, and nothing otherwise. Adding the mark raises the flags
/// by one.
pub fn set_cloexec(flags: i32) -> (r: Option<i32>)
    ensures
        r == set_cloexec_spec(flags),
        r matches Some(v) ==> v == flags + 1,
{
    if flags >= 0 && (flags & FD_CLOEXEC) != FD_CLOEXEC {
        assert(flags >= 0 && flags & 1 != 1 ==> flags | 1 == flags + 1) by (bit_vector);
        Some(flags | FD_CLOEXEC)
    } else {
        None
    }
}

} // verus!
