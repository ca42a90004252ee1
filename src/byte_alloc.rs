//! A first-fit byte allocator over one growable address span.
//!
//! The allocator hands out addresses; it never touches the memory behind them.
//! Free space is kept as a list of ranges `(start, end)`, sorted by address and
//! pairwise disjoint. A freed range is merged with the free ranges that touch it.
use vstd::prelude::*;
use crate::layout::{Layout, is_pow2, lemma_pow2_positive};

verus! {

/// The one error of the allocator.
#[derive(Clone, Copy, Debug, PartialEq, Eq, Structural)]
pub enum AllocError {
    NoMemory,
}

/// The first address at or above `s` that is a multiple of `align`.
pub open spec fn align_up(s: int, align: int) -> int {
    if s % align == 0 {
        s
    } else {
        s - s % align + align
    }
}

/// Whether the free range `r` can hold `size` bytes at alignment `align`.
pub open spec fn fits(r: (usize, usize), size: nat, align: nat) -> bool {
    align_up(r.0 as int, align as int) + size <= r.1
}

/// Free ranges are non-empty, sorted by address, and no two of them overlap
/// or touch: touching ranges are always merged into one.
pub open spec fn sorted_disjoint(s: Seq<(usize, usize)>) -> bool {
    &&& forall|i: int| 0 <= i < s.len() ==> (#[trigger] s[i]).0 < s[i].1
    &&& forall|i: int, j: int| 0 <= i < j < s.len() ==> (#[trigger] s[i]).1 < (#[trigger] s[j]).0
}

/// Every free range lies in `[lo, hi)`.
pub open spec fn within(s: Seq<(usize, usize)>, lo: int, hi: int) -> bool {
    forall|i: int| 0 <= i < s.len() ==> lo <= (#[trigger] s[i]).0 && s[i].1 <= hi
}

/// The number of bytes in the free ranges.
pub open spec fn free_sum(s: Seq<(usize, usize)>) -> int
    decreases s.len(),
{
    if s.len() == 0 {
        0
    } else {
        free_sum(s.drop_last()) + (s.last().1 - s.last().0)
    }
}

/// Puts `[p, q)` back into `v` at slot `i`, merged with the neighbours that
/// touch it.
fn merge_free(v: &mut Vec<(usize, usize)>, i: usize, p: usize, q: usize)
    requires
        i <= old(v)@.len(),
    ensures
        final(v)@ == merge_in(old(v)@, i as int, p as int, q as int),
{
    let ghost s = v@;
    let n = v.len();
    let left = i > 0 && v[i - 1].1 == p;
    let right = i < n && v[i].0 == q;
    if left && right {
        let ls = v[i - 1].0;
        let re = v[i].1;
        v.remove(i);
        v.set(i - 1, (ls, re));
        assert(v@ =~= merge_in(s, i as int, p as int, q as int));
    } else if left {
        let ls = v[i - 1].0;
        v.set(i - 1, (ls, q));
        assert(v@ =~= merge_in(s, i as int, p as int, q as int));
    } else if right {
        let re = v[i].1;
        v.set(i, (p, re));
        assert(v@ =~= merge_in(s, i as int, p as int, q as int));
    } else {
        v.insert(i, (p, q));
        assert(v@ =~= merge_in(s, i as int, p as int, q as int));
    }
}

/// Taking a block out of a free range keeps the live blocks apart from the
/// free list and from each other, the new block included.
proof fn lemma_live_carve(
    s: Seq<(usize, usize)>,
    i: int,
    a: int,
    size: nat,
    live: Set<(int, int)>,
    lo: int,
    hi: int,
)
    requires
        sorted_disjoint(s),
        within(s, lo, hi),
        live_ok(s, live, lo, hi),
        0 <= i < s.len(),
        s[i].0 <= a,
        a + size <= s[i].1,
    ensures
        live_ok(carve(s, i, a, size), if size > 0 { live.insert((a, a + size)) } else { live }, lo, hi),
{
    let c = carve(s, i, a, size);
    let pre = s.subrange(0, i);
    let m = pieces(s[i], a, size);
    let nl = if size > 0 { live.insert((a, a + size)) } else { live };
    assert(c == pre + m + s.subrange(i + 1, s.len() as int));
    assert forall|b: (int, int), k: int| #[trigger] nl.contains(b) && 0 <= k < c.len() implies b.1 <= (#[trigger] c[k]).0 || c[k].1 <= b.0 by {
        if k < pre.len() {
            assert(c[k] == s[k]);
            if b == (a, a + size) {
                assert(s[k].1 < s[i].0);
            }
        } else if k < pre.len() + m.len() {
            assert(c[k] == m[k - pre.len()]);
            if b != (a, a + size) || size == 0 {
                assert(live.contains(b));
                assert(b.1 <= s[i].0 || s[i].1 <= b.0);
            }
        } else {
            let j = k - pre.len() - m.len() + i + 1;
            assert(c[k] == s[j]);
            if b == (a, a + size) {
                assert(s[i].1 < s[j].0);
            }
        }
    }
    assert forall|b: (int, int), d: (int, int)| #[trigger] nl.contains(b) && #[trigger] nl.contains(d) && b != d implies b.1 <= d.0 || d.1 <= b.0 by {
        if size > 0 && b == (a, a + size) {
            assert(live.contains(d));
            assert(d.1 <= s[i].0 || s[i].1 <= d.0);
        } else if size > 0 && d == (a, a + size) {
            assert(live.contains(b));
            assert(b.1 <= s[i].0 || s[i].1 <= b.0);
        } else {
            assert(live.contains(b) && live.contains(d));
        }
    }
    assert forall|b: (int, int)| #[trigger] nl.contains(b) implies lo <= b.0 < b.1 <= hi by {
        if size > 0 && b == (a, a + size) {
        } else {
            assert(live.contains(b));
        }
    }
}

/// Putting a live block back into the free list keeps the other live blocks
/// apart from it and from each other.
proof fn lemma_live_merge(
    s: Seq<(usize, usize)>,
    i: int,
    p: int,
    q: int,
    live: Set<(int, int)>,
    lo: int,
    hi: int,
)
    requires
        sorted_disjoint(s),
        live_ok(s, live, lo, hi),
        live.contains((p, q)),
        is_slot(s, i, p, q),
        0 <= lo,
        hi <= usize::MAX,
    ensures
        live_ok(merge_in(s, i, p, q), live.remove((p, q)), lo, hi),
{
    let t = merge_in(s, i, p, q);
    let nl = live.remove((p, q));
    let left = i > 0 && s[i - 1].1 == p;
    let right = i < s.len() && s[i].0 == q;
    assert forall|b: (int, int), k: int| #[trigger] nl.contains(b) && 0 <= k < t.len() implies b.1 <= (#[trigger] t[k]).0 || t[k].1 <= b.0 by {
        assert(live.contains(b));
        assert(b.0 < b.1);
        assert(b.1 <= p || q <= b.0);
        if i > 0 {
            assert(b.1 <= s[i - 1].0 || s[i - 1].1 <= b.0);
        }
        if i < s.len() {
            assert(b.1 <= s[i].0 || s[i].1 <= b.0);
        }
        if left && right {
            if k < i - 1 {
                assert(t[k] == s[k]);
            } else if k > i - 1 {
                assert(t[k] == s[k + 1]);
            } else {
                assert(t[k] == (s[i - 1].0, s[i].1));
            }
        } else if left {
            if k < i - 1 {
                assert(t[k] == s[k]);
            } else if k > i - 1 {
                assert(t[k] == s[k]);
            } else {
                assert(t[k] == (s[i - 1].0, q as usize));
            }
        } else if right {
            if k < i {
                assert(t[k] == s[k]);
            } else if k > i {
                assert(t[k] == s[k]);
            } else {
                assert(t[k] == (p as usize, s[i].1));
            }
        } else {
            if k < i {
                assert(t[k] == s[k]);
            } else if k > i {
                assert(t[k] == s[k - 1]);
            } else {
                assert(t[k] == (p as usize, q as usize));
            }
        }
    }
}

/// Putting back a block just taken from free range `i` restores the free
/// list exactly.
proof fn lemma_restore(s: Seq<(usize, usize)>, i: int, p: int, size: nat, k: int)
    requires
        sorted_disjoint(s),
        0 <= i < s.len(),
        s[i].0 <= p,
        p + size <= s[i].1,
        size > 0,
        is_slot(carve(s, i, p, size), k, p, p + size),
    ensures
        merge_in(carve(s, i, p, size), k, p, p + size) == s,
{
    let q = p + size;
    let c = carve(s, i, p, size);
    let pre = s.subrange(0, i);
    let post = s.subrange(i + 1, s.len() as int);
    let m = pieces(s[i], p, size);
    assert(c == pre + m + post);
    let front = s[i].0 < p;
    let back = q < s[i].1;
    if front {
        assert(c[i] == (s[i].0, p as usize));
        if k <= i {
            assert(q <= c[i].0);
        }
        if k > i + 1 {
            assert(c[i + 1].1 <= p);
            if back {
                assert(c[i + 1] == (q as usize, s[i].1));
            } else {
                assert(c[i + 1] == s[i + 1]);
            }
        }
        assert(k == i + 1);
        if back {
            assert(c[i + 1] == (q as usize, s[i].1));
            assert(merge_in(c, k, p, q) =~= s);
        } else {
            if i + 1 < s.len() {
                assert(c[i + 1] == s[i + 1]);
                assert(s[i].1 < s[i + 1].0);
            }
            assert(merge_in(c, k, p, q) =~= s);
        }
    } else {
        if k < i {
            assert(c[k] == s[k]);
            assert(s[k].1 < s[i].0);
        }
        if k > i {
            assert(c[i].1 <= p);
            if back {
                assert(c[i] == (q as usize, s[i].1));
            } else {
                assert(c[i] == s[i + 1]);
            }
        }
        assert(k == i);
        if i > 0 {
            assert(c[i - 1] == s[i - 1]);
            assert(s[i - 1].1 < s[i].0);
        }
        if back {
            assert(c[i] == (q as usize, s[i].1));
            assert(merge_in(c, k, p, q) =~= s);
        } else {
            if i + 1 < s.len() {
                assert(c[i] == s[i + 1]);
                assert(s[i].1 < s[i + 1].0);
            }
            assert(merge_in(c, k, p, q) =~= s);
        }
    }
}

/// Whether `y` lies in `[x, x + n)`.
pub open spec fn in_range(y: int, x: int, n: int) -> bool {
    x <= y < x + n
}

/// Whether address `x` lies in some free range.
pub open spec fn is_free(s: Seq<(usize, usize)>, x: int) -> bool {
    exists|i: int| 0 <= i < s.len() && (#[trigger] s[i]).0 <= x < s[i].1
}

/// Live blocks are non-empty, lie in `[lo, hi)`, share no byte with a free
/// range and share no byte with each other.
pub open spec fn live_ok(s: Seq<(usize, usize)>, live: Set<(int, int)>, lo: int, hi: int) -> bool {
    &&& forall|b: (int, int)| #[trigger] live.contains(b) ==> lo <= b.0 < b.1 <= hi
    &&& forall|b: (int, int), j: int|
        #[trigger] live.contains(b) && 0 <= j < s.len() ==> b.1 <= (#[trigger] s[j]).0 || s[j].1 <= b.0
    &&& forall|b: (int, int), c: (int, int)|
        #[trigger] live.contains(b) && #[trigger] live.contains(c) && b != c ==> b.1 <= c.0 || c.1 <= b.0
}

/// `i` is the first free range that can hold the request.
pub open spec fn is_first_fit(s: Seq<(usize, usize)>, i: int, size: nat, align: nat) -> bool {
    &&& 0 <= i < s.len()
    &&& fits(s[i], size, align)
    &&& forall|j: int| 0 <= j < i ==> !fits(#[trigger] s[j], size, align)
}

/// What remains of free range `r` once `[a, a + size)` is taken from it. An
/// empty block takes nothing and leaves the range whole.
pub open spec fn pieces(r: (usize, usize), a: int, size: nat) -> Seq<(usize, usize)> {
    if size == 0 {
        seq![r]
    } else {
    (if r.0 < a { seq![(r.0, a as usize)] } else { Seq::empty() }) + (if a + size < r.1 {
        seq![((a + size) as usize, r.1)]
    } else {
        Seq::empty()
    })
    }
}

/// The free list once `[a, a + size)` is taken from range `i`.
pub open spec fn carve(s: Seq<(usize, usize)>, i: int, a: int, size: nat) -> Seq<(usize, usize)> {
    s.subrange(0, i) + pieces(s[i], a, size) + s.subrange(i + 1, s.len() as int)
}

/// `i` is where the range `[p, q)` goes in the sorted free list.
pub open spec fn is_slot(s: Seq<(usize, usize)>, i: int, p: int, q: int) -> bool {
    &&& 0 <= i <= s.len()
    &&& forall|j: int| 0 <= j < i ==> (#[trigger] s[j]).1 <= p
    &&& forall|j: int| i <= j < s.len() ==> q <= (#[trigger] s[j]).0
}

/// The free list once `[p, q)` is put back at slot `i`, merged with the
/// neighbours that touch it.
pub open spec fn merge_in(s: Seq<(usize, usize)>, i: int, p: int, q: int) -> Seq<(usize, usize)> {
    let left = i > 0 && s[i - 1].1 == p;
    let right = i < s.len() && s[i].0 == q;
    if left && right {
        s.subrange(0, i - 1) + seq![(s[i - 1].0, s[i].1)] + s.subrange(i + 1, s.len() as int)
    } else if left {
        s.subrange(0, i - 1) + seq![(s[i - 1].0, q as usize)] + s.subrange(i, s.len() as int)
    } else if right {
        s.subrange(0, i) + seq![(p as usize, s[i].1)] + s.subrange(i + 1, s.len() as int)
    } else {
        s.subrange(0, i) + seq![(p as usize, q as usize)] + s.subrange(i, s.len() as int)
    }
}

/// The free list once the span `[.., top)` grows by `size` bytes.
pub open spec fn grow(s: Seq<(usize, usize)>, top: int, size: int) -> Seq<(usize, usize)> {
    if size == 0 {
        s
    } else if s.len() > 0 && s.last().1 == top {
        s.drop_last().push((s.last().0, (top + size) as usize))
    } else {
        s.push((top as usize, (top + size) as usize))
    }
}

/// A first-fit allocator over the address span `[bottom, top)`.
pub struct NewByteAllocator {
    free: Vec<(usize, usize)>,
    bottom: usize,
    top: usize,
    used: usize,
    live: Ghost<Set<(int, int)>>,
}

impl NewByteAllocator {
    /// The free ranges, in address order.
    pub closed spec fn free_list(&self) -> Seq<(usize, usize)> {
        self.free@
    }

    /// The lowest managed address.
    pub closed spec fn bottom_spec(&self) -> int {
        self.bottom as int
    }

    /// One past the highest managed address.
    pub closed spec fn top_spec(&self) -> int {
        self.top as int
    }

    /// The blocks `[start, end)` handed out and not yet returned; empty
    /// blocks are not tracked.
    pub closed spec fn live_blocks(&self) -> Set<(int, int)> {
        self.live@
    }

    /// Bytes handed out and not yet returned.
    pub closed spec fn used_spec(&self) -> int {
        self.used as int
    }

    pub open spec fn total_spec(&self) -> int {
        self.top_spec() - self.bottom_spec()
    }

    pub open spec fn available_spec(&self) -> int {
        free_sum(self.free_list())
    }

    pub open spec fn wf(&self) -> bool {
        &&& self.bottom_spec() <= self.top_spec()
        &&& sorted_disjoint(self.free_list())
        &&& within(self.free_list(), self.bottom_spec(), self.top_spec())
        &&& self.used_spec() + self.available_spec() == self.total_spec()
        &&& 0 <= self.used_spec()
        &&& live_ok(self.free_list(), self.live_blocks(), self.bottom_spec(), self.top_spec())
    }

    /// Some free range can hold the request.
    pub open spec fn can_alloc(&self, layout: Layout) -> bool {
        exists|i: int|
            0 <= i < self.free_list().len() && fits(
                #[trigger] self.free_list()[i],
                layout.size_spec(),
                layout.align_spec(),
            )
    }

    /// `new` is `self` after `allocate(layout)` returned `r`.
    pub open spec fn alloc_step(
        &self,
        layout: Layout,
        r: Result<usize, AllocError>,
        new: NewByteAllocator,
    ) -> bool {
        let s = self.free_list();
        match r {
            Ok(a) => exists|i: int|
                #[trigger] is_first_fit(s, i, layout.size_spec(), layout.align_spec()) && a == align_up(
                    s[i].0 as int,
                    layout.align_spec() as int,
                ) && new.free_list() == carve(s, i, a as int, layout.size_spec())
                    && new.used_spec() == self.used_spec() + layout.size_spec()
                    && new.bottom_spec() == self.bottom_spec() && new.top_spec()
                    == self.top_spec() && new.live_blocks() == (if layout.size_spec() > 0 {
                    self.live_blocks().insert((a as int, a + layout.size_spec()))
                } else {
                    self.live_blocks()
                }),
            Err(e) => e == AllocError::NoMemory && !self.can_alloc(layout) && new == *self,
        }
    }

    /// `[pos, pos + layout.size)` may be returned: it is a live block, handed
    /// out by `allocate` with this layout and not yet returned. An empty block
    /// may always be returned.
    pub open spec fn can_dealloc(&self, pos: usize, layout: Layout) -> bool {
        layout.size_spec() > 0 ==> self.live_blocks().contains((pos as int, pos + layout.size_spec()))
    }

    /// `new` is `self` after `dealloc(pos, layout)`.
    pub open spec fn dealloc_step(&self, pos: usize, layout: Layout, new: NewByteAllocator) -> bool {
        let s = self.free_list();
        let q = pos + layout.size_spec();
        if layout.size_spec() == 0 {
            new == *self
        } else {
            &&& new.bottom_spec() == self.bottom_spec()
            &&& new.top_spec() == self.top_spec()
            &&& new.used_spec() == self.used_spec() - layout.size_spec()
            &&& new.live_blocks() == self.live_blocks().remove((pos as int, q))
            &&& exists|i: int| is_slot(s, i, pos as int, q) && new.free_list() == merge_in(s, i, pos as int, q)
        }
    }

    /// An allocator that manages nothing yet.
    pub fn new() -> (r: Self)
        ensures
            r.wf(),
            r.free_list().len() == 0,
            r.total_spec() == 0,
            r.used_spec() == 0,
            r.live_blocks() == Set::<(int, int)>::empty(),
    {
        NewByteAllocator { free: Vec::new(), bottom: 0, top: 0, used: 0, live: Ghost(Set::empty()) }
    }

    /// Hands the allocator its span `[start, start + size)`, all of it free.
    /// Called once, on an allocator that manages nothing yet.
    pub fn init(&mut self, start: usize, size: usize)
        requires
            old(self).wf(),
            old(self).total_spec() == 0,
            old(self).free_list().len() == 0,
            start + size <= usize::MAX,
        ensures
            final(self).wf(),
            final(self).bottom_spec() == start,
            final(self).top_spec() == start + size,
            final(self).used_spec() == 0,
            final(self).free_list() == (if size == 0 {
                Seq::<(usize, usize)>::empty()
            } else {
                seq![(start, (start + size) as usize)]
            }),
    {
        self.bottom = start;
        self.top = start + size;
        self.used = 0;
        self.free = Vec::new();
        self.live = Ghost(Set::empty());
        if size > 0 {
            self.free.push((start, start + size));
        }
        proof {
            if size > 0 {
                assert(self.free@ =~= seq![(start, (start + size) as usize)]);
                lemma_sum_single((start, (start + size) as usize));
            } else {
                assert(self.free@ =~= Seq::<(usize, usize)>::empty());
            }
        }
    }

    /// Grows the span by `size` bytes at its top. The `start` given is not
    /// used: the new bytes always continue the span that is already managed.
    pub fn add_memory(&mut self, start: usize, size: usize) -> (r: Result<(), AllocError>)
        requires
            old(self).wf(),
            old(self).top_spec() + size <= usize::MAX,
        ensures
            r is Ok,
            final(self).wf(),
            final(self).bottom_spec() == old(self).bottom_spec(),
            final(self).top_spec() == old(self).top_spec() + size,
            final(self).used_spec() == old(self).used_spec(),
            final(self).free_list() == grow(old(self).free_list(), old(self).top_spec(), size as int),
    {
        let top = self.top;
        let ghost s = self.free@;
        if size > 0 {
            let n = self.free.len();
            if n > 0 && self.free[n - 1].1 == top {
                let ls = self.free[n - 1].0;
                proof {
                    lemma_splice(s, n - 1, n as int, (ls, (top + size) as usize), self.bottom as int, top + size);
                    assert(s.subrange(n - 1, n as int) =~= seq![s[n - 1]]);
                    lemma_sum_single(s[n - 1]);
                }
                self.free.set(n - 1, (ls, top + size));
                proof {
                    assert(self.free@ =~= s.subrange(0, n - 1) + seq![(ls, (top + size) as usize)] + s.subrange(n as int, n as int));
                    assert(self.free@ =~= grow(s, top as int, size as int));
                }
            } else {
                proof {
                    lemma_splice(s, n as int, n as int, (top, (top + size) as usize), self.bottom as int, top + size);
                    assert(s.subrange(n as int, n as int) =~= Seq::<(usize, usize)>::empty());
                }
                self.free.push((top, top + size));
                proof {
                    assert(self.free@ =~= s.subrange(0, n as int) + seq![(top, (top + size) as usize)] + s.subrange(n as int, n as int));
                }
            }
            self.top = top + size;
            proof {
                assert(within(self.free@, self.bottom as int, self.top as int));
            }
        }
        Ok(())
    }

    /// First fit: takes the request from the first free range, in address
    /// order, that can hold it at its alignment. What is left of that range
    /// on either side stays free. An empty request returns the aligned
    /// address and takes nothing.
    pub fn allocate(&mut self, layout: Layout) -> (r: Result<usize, AllocError>)
        requires
            old(self).wf(),
            layout.wf(),
        ensures
            final(self).wf(),
            old(self).alloc_step(layout, r, *final(self)),
            r is Ok <==> old(self).can_alloc(layout),
            r matches Ok(a) ==> forall|x: int|
                a <= x < a + layout.size_spec() ==> is_free(old(self).free_list(), x) && !is_free(
                    final(self).free_list(),
                    x,
                ),
    {
        let size = layout.size();
        let align = layout.align();
        proof {
            lemma_pow2_positive(align as nat);
        }
        let n = self.free.len();
        let mut i: usize = 0;
        while i < n
            invariant
                self.wf(),
                *self == *old(self),
                n == self.free@.len(),
                i <= n,
                align > 0,
                size == layout.size_spec(),
                align == layout.align_spec(),
                forall|j: int| 0 <= j < i ==> !fits(#[trigger] self.free@[j], size as nat, align as nat),
            decreases n - i,
        {
            let (s, e) = self.free[i];
            let rem = s % align;
            let pad = if rem == 0 {
                0
            } else {
                align - rem
            };
            if pad <= e - s && size <= e - s - pad {
                let a = s + pad;
                let ghost old_free = self.free@;
                proof {
                    assert(old_free[i as int] == (s, e));
                    assert(a == align_up(s as int, align as int));
                    lemma_carve(old_free, i as int, a as int, size as nat, self.bottom as int, self.top as int);
                    lemma_elem_le_sum(old_free, i as int);
                }
                if size > 0 {
                    self.free.remove(i);
                    let mut k: usize = i;
                    if s < a {
                        self.free.insert(k, (s, a));
                        k = k + 1;
                    }
                    if a + size < e {
                        self.free.insert(k, (a + size, e));
                    }
                } else {
                    proof {
                        lemma_split(old_free, i as int);
                    }
                }
                self.used = self.used + size;
                proof {
                    lemma_live_carve(old_free, i as int, a as int, size as nat, self.live@, self.bottom as int, self.top as int);
                }
                if size > 0 {
                    self.live = Ghost(self.live@.insert((a as int, a + size)));
                }
                proof {
                    assert(self.free@ =~= carve(old_free, i as int, a as int, size as nat));
                    assert(is_first_fit(old_free, i as int, size as nat, align as nat));
                    assert(old_free == old(self).free_list());
                    assert(self.free_list() == carve(old_free, i as int, a as int, layout.size_spec()));
                    assert(a == align_up(old_free[i as int].0 as int, layout.align_spec() as int));
                    assert(self.used_spec() == old(self).used_spec() + layout.size_spec());
                    assert(self.bottom_spec() == old(self).bottom_spec());
                    assert(self.top_spec() == old(self).top_spec());
                    assert(is_first_fit(old(self).free_list(), i as int, layout.size_spec(), layout.align_spec()));
                }
                return Ok(a);
            }
            proof {
                assert(!fits(self.free@[i as int], size as nat, align as nat));
            }
            i = i + 1;
        }
        Err(AllocError::NoMemory)
    }

    /// Returns `[pos, pos + layout.size)` to the free list, merged with the
    /// free ranges that touch it. Returning nothing (size zero) changes nothing.
    pub fn dealloc(&mut self, pos: usize, layout: Layout)
        requires
            old(self).wf(),
            old(self).can_dealloc(pos, layout),
        ensures
            final(self).wf(),
            old(self).dealloc_step(pos, layout, *final(self)),
    {
        let size = layout.size();
        if size == 0 {
            return;
        }
        let q = pos + size;
        let i = self.slot_of(pos);
        let ghost s = self.free@;
        proof {
            lemma_slot(s, i as int, pos as int, q as int);
            lemma_merge(s, i as int, pos as int, q as int, self.bottom as int, self.top as int);
            lemma_sum_bound(merge_in(s, i as int, pos as int, q as int), self.bottom as int, self.top as int);
        }
        merge_free(&mut self.free, i, pos, q);
        self.used = self.used - size;
        proof {
            lemma_live_merge(s, i as int, pos as int, q as int, self.live@, self.bottom as int, self.top as int);
        }
        self.live = Ghost(self.live@.remove((pos as int, q as int)));
    }

    /// The index of the first free range that ends after `pos`.
    fn slot_of(&self, pos: usize) -> (r: usize)
        ensures
            r <= self.free@.len(),
            forall|j: int| 0 <= j < r ==> (#[trigger] self.free@[j]).1 <= pos,
            r < self.free@.len() ==> self.free@[r as int].1 > pos,
    {
        let n = self.free.len();
        let mut i: usize = 0;
        while i < n && self.free[i].1 <= pos
            invariant
                n == self.free@.len(),
                i <= n,
                forall|j: int| 0 <= j < i ==> (#[trigger] self.free@[j]).1 <= pos,
            decreases n - i,
        {
            i = i + 1;
        }
        i
    }

    pub fn total_bytes(&self) -> (r: usize)
        requires
            self.wf(),
        ensures
            r == self.total_spec(),
    {
        self.top - self.bottom
    }

    pub fn used_bytes(&self) -> (r: usize)
        ensures
            r == self.used_spec(),
    {
        self.used
    }

    pub fn available_bytes(&self) -> (r: usize)
        requires
            self.wf(),
        ensures
            r == self.available_spec(),
    {
        proof {
            lemma_sum_nonneg(self.free@);
        }
        self.top - self.bottom - self.used
    }
}

/// Every range of `a` ends before every range of `b` starts.
pub open spec fn all_before(a: Seq<(usize, usize)>, b: Seq<(usize, usize)>) -> bool {
    forall|i: int, j: int| 0 <= i < a.len() && 0 <= j < b.len() ==> (#[trigger] a[i]).1 < (#[trigger] b[j]).0
}

proof fn lemma_sorted_concat(a: Seq<(usize, usize)>, b: Seq<(usize, usize)>)
    requires
        sorted_disjoint(a),
        sorted_disjoint(b),
        all_before(a, b),
    ensures
        sorted_disjoint(a + b),
{
    let c = a + b;
    assert forall|i: int| 0 <= i < c.len() implies (#[trigger] c[i]).0 < c[i].1 by {
        if i < a.len() {
            assert(c[i] == a[i]);
        } else {
            assert(c[i] == b[i - a.len()]);
        }
    }
    assert forall|i: int, j: int| 0 <= i < j < c.len() implies (#[trigger] c[i]).1 < (#[trigger] c[j]).0 by {
        if j < a.len() {
            assert(c[i] == a[i] && c[j] == a[j]);
        } else if i < a.len() {
            assert(c[i] == a[i] && c[j] == b[j - a.len()]);
        } else {
            assert(c[i] == b[i - a.len()] && c[j] == b[j - a.len()]);
        }
    }
}

proof fn lemma_sum_single(r: (usize, usize))
    ensures
        free_sum(seq![r]) == r.1 - r.0,
{
    assert(seq![r].drop_last() =~= Seq::<(usize, usize)>::empty());
    assert(seq![r].last() == r);
    assert(free_sum(Seq::<(usize, usize)>::empty()) == 0);
}

/// Splits `s` around index `i`.
proof fn lemma_split(s: Seq<(usize, usize)>, i: int)
    requires
        0 <= i < s.len(),
    ensures
        s =~= s.subrange(0, i) + seq![s[i]] + s.subrange(i + 1, s.len() as int),
        free_sum(s) == free_sum(s.subrange(0, i)) + (s[i].1 - s[i].0) + free_sum(
            s.subrange(i + 1, s.len() as int),
        ),
{
    let p = s.subrange(0, i);
    let t = s.subrange(i + 1, s.len() as int);
    assert(s =~= p + seq![s[i]] + t);
    lemma_sum_concat(p + seq![s[i]], t);
    lemma_sum_concat(p, seq![s[i]]);
    lemma_sum_single(s[i]);
}

/// Taking `[a, a + size)` out of free range `i` keeps the list sorted and in
/// bounds, removes exactly those bytes, and leaves them not free.
#[verifier::rlimit(30)]
proof fn lemma_carve(s: Seq<(usize, usize)>, i: int, a: int, size: nat, lo: int, hi: int)
    requires
        sorted_disjoint(s),
        within(s, lo, hi),
        0 <= i < s.len(),
        s[i].0 <= a,
        a + size <= s[i].1,
    ensures
        sorted_disjoint(carve(s, i, a, size)),
        within(carve(s, i, a, size), lo, hi),
        free_sum(carve(s, i, a, size)) == free_sum(s) - size,
        forall|x: int| a <= x < a + size ==> is_free(s, x) && !is_free(carve(s, i, a, size), x),
        forall|x: int| is_free(carve(s, i, a, size), x) ==> is_free(s, x),
{
    let p = s.subrange(0, i);
    let t = s.subrange(i + 1, s.len() as int);
    let m = pieces(s[i], a, size);
    let c = carve(s, i, a, size);
    lemma_split(s, i);
    assert(sorted_disjoint(p));
    assert(sorted_disjoint(t));
    assert(sorted_disjoint(m));
    assert(all_before(p, m));
    lemma_sorted_concat(p, m);
    assert(all_before(p + m, t)) by {
        assert forall|x: int, y: int| 0 <= x < (p + m).len() && 0 <= y < t.len() implies (#[trigger] (p + m)[x]).1 < (#[trigger] t[y]).0 by {
            assert(t[y] == s[i + 1 + y]);
            if x < p.len() {
                assert((p + m)[x] == s[x]);
            } else {
                assert((p + m)[x] == m[x - p.len()]);
            }
        }
    }
    lemma_sorted_concat(p + m, t);
    assert(c == p + m + t);
    assert forall|k: int| 0 <= k < c.len() implies lo <= (#[trigger] c[k]).0 && c[k].1 <= hi by {
        if k < p.len() {
            assert(c[k] == s[k]);
        } else if k < p.len() + m.len() {
            assert(c[k] == m[k - p.len()]);
        } else {
            assert(c[k] == s[k - p.len() - m.len() + i + 1]);
        }
    }
    lemma_sum_concat(p + m, t);
    lemma_sum_concat(p, m);
    if s[i].0 < a {
        lemma_sum_single((s[i].0, a as usize));
    }
    if a + size < s[i].1 {
        lemma_sum_single(((a + size) as usize, s[i].1));
    }
    if s[i].0 < a && a + size < s[i].1 {
        lemma_sum_concat(seq![(s[i].0, a as usize)], seq![((a + size) as usize, s[i].1)]);
    } else if s[i].0 < a {
        assert(m =~= seq![(s[i].0, a as usize)]);
    } else if a + size < s[i].1 {
        assert(m =~= seq![((a + size) as usize, s[i].1)]);
    } else {
        assert(m =~= Seq::<(usize, usize)>::empty());
    }
    assert forall|x: int| a <= x < a + size implies is_free(s, x) && !is_free(c, x) by {
        assert(s[i].0 <= x < s[i].1);
        if is_free(c, x) {
            let k = choose|k: int| 0 <= k < c.len() && (#[trigger] c[k]).0 <= x < c[k].1;
            if k < p.len() {
                assert(c[k] == s[k]);
            } else if k < p.len() + m.len() {
                assert(c[k] == m[k - p.len()]);
            } else {
                assert(c[k] == s[k - p.len() - m.len() + i + 1]);
            }
        }
    }
    assert forall|x: int| is_free(c, x) implies is_free(s, x) by {
        let k = choose|k: int| 0 <= k < c.len() && (#[trigger] c[k]).0 <= x < c[k].1;
        if k < p.len() {
            assert(c[k] == s[k]);
        } else if k < p.len() + m.len() {
            assert(c[k] == m[k - p.len()]);
            assert(s[i].0 <= x < s[i].1);
        } else {
            assert(c[k] == s[k - p.len() - m.len() + i + 1]);
        }
    }
}

/// Replacing `s[a..b]` by the single range `r`, which fits between its
/// neighbours, keeps the list sorted and changes the sum accordingly.
proof fn lemma_splice(s: Seq<(usize, usize)>, a: int, b: int, r: (usize, usize), lo: int, hi: int)
    requires
        sorted_disjoint(s),
        within(s, lo, hi),
        0 <= a <= b <= s.len(),
        lo <= r.0 < r.1 <= hi,
        forall|j: int| 0 <= j < a ==> (#[trigger] s[j]).1 < r.0,
        forall|j: int| b <= j < s.len() ==> r.1 < (#[trigger] s[j]).0,
    ensures
        ({
            let t = s.subrange(0, a) + seq![r] + s.subrange(b, s.len() as int);
            &&& sorted_disjoint(t)
            &&& within(t, lo, hi)
            &&& free_sum(t) == free_sum(s) - free_sum(s.subrange(a, b)) + (r.1 - r.0)
        }),
{
    let p = s.subrange(0, a);
    let m = s.subrange(a, b);
    let u = s.subrange(b, s.len() as int);
    let t = p + seq![r] + u;
    assert(sorted_disjoint(p));
    assert(sorted_disjoint(u));
    assert(sorted_disjoint(seq![r]));
    lemma_sorted_concat(p, seq![r]);
    assert(all_before(p + seq![r], u)) by {
        assert forall|x: int, y: int| 0 <= x < (p + seq![r]).len() && 0 <= y < u.len() implies (#[trigger] (p + seq![r])[x]).1 < (#[trigger] u[y]).0 by {
            assert(u[y] == s[b + y]);
            if x < p.len() {
                assert((p + seq![r])[x] == s[x]);
                if b + y > x {
                } else {
                    assert(s[x].1 < r.0);
                }
            }
        }
    }
    lemma_sorted_concat(p + seq![r], u);
    assert forall|k: int| 0 <= k < t.len() implies lo <= (#[trigger] t[k]).0 && t[k].1 <= hi by {
        if k < p.len() {
            assert(t[k] == s[k]);
        } else if k > p.len() {
            assert(t[k] == s[k - p.len() - 1 + b]);
        }
    }
    lemma_sum_concat(p + seq![r], u);
    lemma_sum_concat(p, seq![r]);
    lemma_sum_single(r);
    assert(s =~= p + m + u);
    lemma_sum_concat(p + m, u);
    lemma_sum_concat(p, m);
}

proof fn lemma_slot(s: Seq<(usize, usize)>, i: int, p: int, q: int)
    requires
        sorted_disjoint(s),
        0 <= i <= s.len(),
        p <= q,
        forall|j: int| 0 <= j < i ==> (#[trigger] s[j]).1 <= p,
        i < s.len() ==> s[i].1 > p,
        forall|j: int| 0 <= j < s.len() ==> (#[trigger] s[j]).1 <= p || q <= s[j].0,
    ensures
        is_slot(s, i, p, q),
{
    assert forall|j: int| i <= j < s.len() implies q <= (#[trigger] s[j]).0 by {
        assert(q <= s[i].0);
        if j > i {
            assert(s[i].1 <= s[j].0);
        }
    }
}

/// Putting `[p, q)` back at its slot keeps the list sorted and in bounds, adds
/// exactly its bytes, and leaves one free range that covers it.
proof fn lemma_merge(s: Seq<(usize, usize)>, i: int, p: int, q: int, lo: int, hi: int)
    requires
        sorted_disjoint(s),
        within(s, lo, hi),
        is_slot(s, i, p, q),
        0 <= lo <= p < q <= hi <= usize::MAX,
    ensures
        sorted_disjoint(merge_in(s, i, p, q)),
        within(merge_in(s, i, p, q), lo, hi),
        free_sum(merge_in(s, i, p, q)) == free_sum(s) + (q - p),
        exists|k: int|
            0 <= k < merge_in(s, i, p, q).len() && (#[trigger] merge_in(s, i, p, q)[k]).0 <= p && q
                <= merge_in(s, i, p, q)[k].1,
{
    let left = i > 0 && s[i - 1].1 == p;
    let right = i < s.len() && s[i].0 == q;
    let t = merge_in(s, i, p, q);
    if left && right {
        let r = (s[i - 1].0, s[i].1);
        assert forall|j: int| 0 <= j < i - 1 implies (#[trigger] s[j]).1 < r.0 by {
            assert(s[j].1 < s[i - 1].0);
        }
        assert forall|j: int| i + 1 <= j < s.len() implies r.1 < (#[trigger] s[j]).0 by {
            assert(s[i].1 < s[j].0);
        }
        lemma_splice(s, i - 1, i + 1, r, lo, hi);
        assert(s.subrange(i - 1, i + 1) =~= seq![s[i - 1]] + seq![s[i]]);
        lemma_sum_concat(seq![s[i - 1]], seq![s[i]]);
        lemma_sum_single(s[i - 1]);
        lemma_sum_single(s[i]);
        assert(t[i - 1] == r);
    } else if left {
        let r = (s[i - 1].0, q as usize);
        assert forall|j: int| 0 <= j < i - 1 implies (#[trigger] s[j]).1 < r.0 by {
            assert(s[j].1 < s[i - 1].0);
        }
        assert forall|j: int| i <= j < s.len() implies r.1 < (#[trigger] s[j]).0 by {
            assert(q <= s[i].0 && q != s[i].0);
            if j > i {
                assert(s[i].1 < s[j].0);
            }
        }
        lemma_splice(s, i - 1, i, r, lo, hi);
        assert(s.subrange(i - 1, i) =~= seq![s[i - 1]]);
        lemma_sum_single(s[i - 1]);
        assert(t[i - 1] == r);
    } else if right {
        let r = (p as usize, s[i].1);
        assert forall|j: int| 0 <= j < i implies (#[trigger] s[j]).1 < r.0 by {
            assert(s[i - 1].1 <= p && s[i - 1].1 != p);
            if j < i - 1 {
                assert(s[j].1 < s[i - 1].0);
            }
        }
        assert forall|j: int| i + 1 <= j < s.len() implies r.1 < (#[trigger] s[j]).0 by {
            assert(s[i].1 < s[j].0);
        }
        lemma_splice(s, i, i + 1, r, lo, hi);
        assert(s.subrange(i, i + 1) =~= seq![s[i]]);
        lemma_sum_single(s[i]);
        assert(t[i] == r);
    } else {
        let r = (p as usize, q as usize);
        assert forall|j: int| 0 <= j < i implies (#[trigger] s[j]).1 < r.0 by {
            assert(s[i - 1].1 <= p && s[i - 1].1 != p);
            if j < i - 1 {
                assert(s[j].1 < s[i - 1].0);
            }
        }
        assert forall|j: int| i <= j < s.len() implies r.1 < (#[trigger] s[j]).0 by {
            assert(q <= s[i].0 && q != s[i].0);
            if j > i {
                assert(s[i].1 < s[j].0);
            }
        }
        lemma_splice(s, i, i, r, lo, hi);
        assert(s.subrange(i, i) =~= Seq::<(usize, usize)>::empty());
        assert(t[i] == r);
    }
}

proof fn lemma_sum_concat(a: Seq<(usize, usize)>, b: Seq<(usize, usize)>)
    ensures
        free_sum(a + b) == free_sum(a) + free_sum(b),
    decreases b.len(),
{
    if b.len() == 0 {
        assert(a + b =~= a);
    } else {
        lemma_sum_concat(a, b.drop_last());
        assert((a + b).drop_last() =~= a + b.drop_last());
    }
}

proof fn lemma_sum_nonneg(s: Seq<(usize, usize)>)
    requires
        forall|i: int| 0 <= i < s.len() ==> (#[trigger] s[i]).0 <= s[i].1,
    ensures
        free_sum(s) >= 0,
    decreases s.len(),
{
    if s.len() > 0 {
        assert(s.last() == s[s.len() - 1]);
        lemma_sum_nonneg(s.drop_last());
    }
}

/// The free bytes of a sorted list in `[lo, hi)` number at most `hi - lo`.
proof fn lemma_sum_bound(s: Seq<(usize, usize)>, lo: int, hi: int)
    requires
        sorted_disjoint(s),
        within(s, lo, hi),
        lo <= hi,
    ensures
        free_sum(s) <= hi - lo,
    decreases s.len(),
{
    if s.len() > 0 {
        let l = s[s.len() - 1];
        assert(s.last() == l);
        let d = s.drop_last();
        assert forall|i: int| 0 <= i < d.len() implies (#[trigger] d[i]).1 <= l.0 by {
            assert(s[i] == d[i]);
        }
        lemma_sum_bound(d, lo, l.0 as int);
    }
}

/// A single free range holds no more bytes than the whole list.
proof fn lemma_elem_le_sum(s: Seq<(usize, usize)>, i: int)
    requires
        sorted_disjoint(s),
        0 <= i < s.len(),
    ensures
        s[i].1 - s[i].0 <= free_sum(s),
    decreases s.len(),
{
    let d = s.drop_last();
    assert(s.last() == s[s.len() - 1]);
    if i == s.len() - 1 {
        lemma_sum_nonneg(d);
    } else {
        assert(d[i] == s[i]);
        lemma_elem_le_sum(d, i);
    }
}

/// `align_up(s, align)` is a multiple of `align` in `[s, s + align)`.
proof fn lemma_align_up_basic(s: int, align: int)
    requires
        align > 0,
        0 <= s,
    ensures
        s <= align_up(s, align) < s + align,
        align_up(s, align) % align == 0,
{
    vstd::arithmetic::div_mod::lemma_fundamental_div_mod(s, align);
    vstd::arithmetic::div_mod::lemma_mod_pos_bound(s, align);
    if s % align != 0 {
        let qs = s / align;
        vstd::arithmetic::mul::lemma_mul_is_distributive_add(align, qs, 1);
        vstd::arithmetic::div_mod::lemma_mod_multiples_basic(qs + 1, align);
        vstd::arithmetic::mul::lemma_mul_is_commutative(qs + 1, align);
        assert(s - s % align + align == align * (qs + 1));
    }
}

/// `align_up` is the least multiple of `align` at or above `s`.
proof fn lemma_align_up_least(s: int, align: int, a: int)
    requires
        align > 0,
        0 <= s <= a,
        a % align == 0,
    ensures
        align_up(s, align) <= a,
{
    vstd::arithmetic::div_mod::lemma_fundamental_div_mod(s, align);
    vstd::arithmetic::div_mod::lemma_fundamental_div_mod(a, align);
    vstd::arithmetic::div_mod::lemma_mod_pos_bound(s, align);
    if s % align != 0 {
        vstd::arithmetic::div_mod::lemma_div_is_ordered(s, a, align);
        let qs = s / align;
        let qa = a / align;
        if qs == qa {
            assert(s % align == s - align * qs);
            assert(false);
        }
        vstd::arithmetic::mul::lemma_mul_is_distributive_add(align, qs, 1);
        vstd::arithmetic::mul::lemma_mul_inequality(qs + 1, qa, align);
        vstd::arithmetic::mul::lemma_mul_is_commutative(qs + 1, align);
        vstd::arithmetic::mul::lemma_mul_is_commutative(qa, align);
        assert(s - s % align + align == align * (qs + 1));
    }
}

/// Bytes in use and bytes free always add up to the managed total.
pub proof fn lemma_accounting(a: NewByteAllocator)
    requires
        a.wf(),
    ensures
        a.used_spec() + a.available_spec() == a.total_spec(),
{
}

/// A block that `allocate` hands out overlaps no block that is live at the
/// time of the call.
pub proof fn lemma_alloc_disjoint_from_live(a: NewByteAllocator, layout: Layout, p: usize, b: NewByteAllocator)
    requires
        a.wf(),
        layout.wf(),
        a.alloc_step(layout, Ok(p), b),
    ensures
        forall|c: (int, int)| #[trigger] a.live_blocks().contains(c) ==> c.1 <= p || p + layout.size_spec() <= c.0,
{
    let s = a.free_list();
    let i = choose|i: int|
        #[trigger] is_first_fit(s, i, layout.size_spec(), layout.align_spec()) && p == align_up(
            s[i].0 as int,
            layout.align_spec() as int,
        ) && b.free_list() == carve(s, i, p as int, layout.size_spec());
    lemma_pow2_positive(layout.align_spec());
    lemma_align_up_basic(s[i].0 as int, layout.align_spec() as int);
    assert forall|c: (int, int)| #[trigger] a.live_blocks().contains(c) implies c.1 <= p || p + layout.size_spec() <= c.0 by {
        assert(c.1 <= s[i].0 || s[i].1 <= c.0);
    }
}

/// A block that `allocate` hands out may be handed back with the same layout.
pub proof fn lemma_alloc_then_can_dealloc(a0: NewByteAllocator, layout: Layout, p: usize, a1: NewByteAllocator)
    requires
        a0.wf(),
        layout.wf(),
        a0.alloc_step(layout, Ok(p), a1),
    ensures
        a1.can_dealloc(p, layout),
{
}

/// Allocating a block, freeing it with the same layout and allocating that
/// layout again succeeds, and the managed total does not change. In fact the
/// free ranges, the bytes in use and the live blocks are all as before.
pub proof fn lemma_round_trip(
    a0: NewByteAllocator,
    layout: Layout,
    p: usize,
    a1: NewByteAllocator,
    a2: NewByteAllocator,
)
    requires
        a0.wf(),
        layout.wf(),
        a0.alloc_step(layout, Ok(p), a1),
        a1.dealloc_step(p, layout, a2),
    ensures
        a2.can_alloc(layout),
        a2.total_spec() == a0.total_spec(),
        a2.free_list() == a0.free_list(),
        a2.used_spec() == a0.used_spec(),
        a2.live_blocks() == a0.live_blocks(),
{
    let s = a0.free_list();
    let size = layout.size_spec();
    let align = layout.align_spec();
    let i = choose|i: int|
        #[trigger] is_first_fit(s, i, size, align) && p == align_up(s[i].0 as int, align as int)
            && a1.free_list() == carve(s, i, p as int, size);
    lemma_pow2_positive(align);
    lemma_align_up_basic(s[i].0 as int, align as int);
    lemma_alloc_then_can_dealloc(a0, layout, p, a1);
    if size == 0 {
        lemma_split(s, i);
        assert(a2.free_list() =~= s);
        assert(fits(a2.free_list()[i], size, align));
    } else {
        let c = a1.free_list();
        let q = p + size;
        let k = choose|k: int| is_slot(c, k, p as int, q) && a2.free_list() == merge_in(c, k, p as int, q);
        lemma_carve(s, i, p as int, size, a0.bottom_spec(), a0.top_spec());
        lemma_merge(c, k, p as int, q, a0.bottom_spec(), a0.top_spec());
        let t = a2.free_list();
        let w = choose|w: int| 0 <= w < t.len() && (#[trigger] t[w]).0 <= p && q <= t[w].1;
        lemma_align_up_least(t[w].0 as int, align as int, p as int);
        assert(fits(t[w], size, align));
        lemma_restore(s, i, p as int, size, k);
        lemma_alloc_disjoint_from_live(a0, layout, p, a1);
        assert(!a0.live_blocks().contains((p as int, q)));
        assert(a2.live_blocks() =~= a0.live_blocks());
    }
}

/// A request for more bytes than are free fails.
pub proof fn lemma_too_large(a: NewByteAllocator, layout: Layout)
    requires
        a.wf(),
        layout.wf(),
        layout.size_spec() > a.available_spec(),
    ensures
        !a.can_alloc(layout),
{
    lemma_pow2_positive(layout.align_spec());
    if a.can_alloc(layout) {
        let s = a.free_list();
        let i = choose|i: int| 0 <= i < s.len() && fits(#[trigger] s[i], layout.size_spec(), layout.align_spec());
        lemma_align_up_basic(s[i].0 as int, layout.align_spec() as int);
        lemma_elem_le_sum(s, i);
    }
}

/// When all free bytes form one range whose start meets the alignment, a
/// request for exactly that many bytes succeeds.
pub proof fn lemma_exact_fit(a: NewByteAllocator, layout: Layout)
    requires
        a.wf(),
        layout.wf(),
        a.free_list().len() == 1,
        (a.free_list()[0].0 as int) % (layout.align_spec() as int) == 0,
        layout.size_spec() == a.available_spec(),
    ensures
        a.can_alloc(layout),
{
    let s = a.free_list();
    assert(s =~= seq![s[0]]);
    lemma_sum_single(s[0]);
    assert(fits(s[0], layout.size_spec(), layout.align_spec()));
}
} // verus!
