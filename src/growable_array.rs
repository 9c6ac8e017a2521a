//! A growable array of slots, stored as a tree of fixed-size segments.
//!
//! The bits of an index are split into groups of `SEGMENT_LOGSIZE` bits. In a
//! tree of height `h` the group `h - 1` selects a slot of the root segment,
//! the next group a slot of that child, and so on down to group `0`, which
//! selects a slot of a leaf segment. The tree grows upwards: a new root takes
//! the old root as its child in slot `0`, so that no stored value moves.
use vstd::prelude::*;
use vstd::std_specs::bits::{u64_leading_zeros, axiom_u64_leading_zeros};

verus! {

/// Each segment holds `1 << SEGMENT_LOGSIZE` slots.
pub const SEGMENT_LOGSIZE: u64 = 10;

/// The number of slots of a segment.
pub const SEGMENT_SIZE: usize = 1024;

/// A tree of this height addresses every 64-bit index.
pub const MAX_HEIGHT: u64 = 7;

/// The group of `SEGMENT_LOGSIZE` bits of `index` that selects a slot at
/// level `at` (level `0` is the leaf level).
pub open spec fn digit(index: u64, at: nat) -> u64 {
    if at >= 7 {
        0
    } else {
        (index >> ((10 * at) as u64)) & 1023u64
    }
}

/// The bits of `index` that the lowest `h` levels resolve.
pub open spec fn low(index: u64, h: nat) -> u64 {
    if h >= 7 {
        index
    } else {
        index & (((1u64 << ((10 * h) as u64)) - 1) as u64)
    }
}

/// A tree of height `h` has room for `index`.
pub open spec fn fits(index: u64, h: nat) -> bool {
    low(index, h) == index
}

pub proof fn lemma_digit_bound(index: u64, at: nat)
    ensures
        digit(index, at) < 1024,
{
    if at < 7 {
        let s = (10 * at) as u64;
        assert((index >> s) & 1023u64 < 1024) by (bit_vector);
    }
}

/// Two indices agree on the lowest `h` levels exactly when they agree on
/// level `h - 1` and on the levels below it.
pub proof fn lemma_low_split(i: u64, j: u64, h: nat)
    requires
        1 <= h <= 7,
    ensures
        (low(i, h) == low(j, h)) == (digit(i, (h - 1) as nat) == digit(j, (h - 1) as nat) && low(
            i,
            (h - 1) as nat,
        ) == low(j, (h - 1) as nat)),
{
    let s = (10 * (h - 1)) as u64;
    if h == 7 {
        assert((i == j) == (((i >> 60u64) & 1023u64) == ((j >> 60u64) & 1023u64) && (i & (((1u64
            << 60u64) - 1) as u64)) == (j & (((1u64 << 60u64) - 1) as u64)))) by (bit_vector);
    } else {
        let t = (s + 10) as u64;
        assert(((i & (((1u64 << t) - 1) as u64)) == (j & (((1u64 << t) - 1) as u64))) == (((i >> s)
            & 1023u64) == ((j >> s) & 1023u64) && (i & (((1u64 << s) - 1) as u64)) == (j & (((1u64
            << s) - 1) as u64)))) by (bit_vector)
            requires
                s <= 50,
                t == s + 10,
        ;
    }
}

/// An index fits a tree of height `h` exactly when it fits one level more
/// and selects slot `0` at level `h`.
pub proof fn lemma_fits_grow(j: u64, h: nat)
    requires
        1 <= h <= 6,
    ensures
        fits(j, h) == (fits(j, h + 1) && digit(j, h) == 0),
{
    let s = (10 * h) as u64;
    if h == 6 {
        assert(((j & (((1u64 << 60u64) - 1) as u64)) == j) == (((j >> 60u64) & 1023u64) == 0)) by (bit_vector);
    } else {
        let t = (s + 10) as u64;
        assert(((j & (((1u64 << s) - 1) as u64)) == j) == ((j & (((1u64 << t) - 1) as u64)) == j
            && ((j >> s) & 1023u64) == 0)) by (bit_vector)
            requires
                s <= 50,
                t == s + 10,
        ;
    }
}

/// A tree that has room for an index keeps it when it grows.
pub proof fn lemma_fits_mono(i: u64, a: nat, b: nat)
    requires
        1 <= a <= b,
        fits(i, a),
    ensures
        fits(i, b),
    decreases b - a,
{
    if a < b && a < 7 {
        lemma_fits_grow(i, a);
        lemma_fits_mono(i, a + 1, b);
    }
}

/// Below level 7, fitting is the same as having no bit at or above the
/// levels' span.
pub proof fn lemma_fits_shift(j: u64, h: nat)
    requires
        1 <= h < 7,
    ensures
        fits(j, h) == (j >> ((10 * h) as u64) == 0),
{
    let s = (10 * h) as u64;
    assert(((j & (((1u64 << s) - 1) as u64)) == j) == (j >> s == 0)) by (bit_vector)
        requires
            s < 64,
    ;
}

/// Returns the bits of `index` that select a slot at level `at`.
pub fn get_bits_at(index: u64, at: u64) -> (r: u64)
    requires
        at < MAX_HEIGHT,
    ensures
        r == digit(index, at as nat),
        r < 1024,
{
    let one: u64 = 1u64 << SEGMENT_LOGSIZE;
    assert(one == 1024) by (bit_vector)
        requires
            one == 1u64 << 10u64,
    ;
    let mask: u64 = one - 1;
    proof {
        lemma_digit_bound(index, at as nat);
    }
    (index >> (at * SEGMENT_LOGSIZE)) & mask
}

/// Returns the number of significant bits of `index`: one more than the
/// position of its highest set bit, or `0` for `0`.
pub fn get_msb_index(index: u64) -> (r: u64)
    ensures
        r <= 64,
        r < 64 ==> index >> r == 0,
        r > 0 ==> (index >> ((r - 1) as u64)) & 1 == 1,
{
    let zeros = index.leading_zeros() as u64;
    proof {
        axiom_u64_leading_zeros(index);
        let r = (64 - zeros) as u64;
        if r > 0 {
            assert((index >> ((r - 1) as u64)) & 1 != 0 ==> (index >> ((r - 1) as u64)) & 1 == 1)
                by (bit_vector);
        }
    }
    64 - zeros
}

/// The height of the smallest tree that has room for `index`.
pub fn height_for(index: u64) -> (h: u64)
    ensures
        1 <= h <= MAX_HEIGHT,
        fits(index, h as nat),
        h > 1 ==> !fits(index, (h - 1) as nat),
{
    let msb = get_msb_index(index);
    let h: u64 = if msb % SEGMENT_LOGSIZE == 0 {
        msb / SEGMENT_LOGSIZE
    } else {
        msb / SEGMENT_LOGSIZE + 1
    };
    let h: u64 = if h == 0 { 1 } else { h };
    proof {
        if h < 7 {
            let s = (10 * h) as u64;
            assert(msb <= s);
            lemma_fits_shift(index, h as nat);
            assert(index >> s == 0) by (bit_vector)
                requires
                    index >> msb == 0 || msb == 64,
                    msb <= s,
                    s < 64,
            ;
        }
        if h > 1 {
            let s = (10 * (h - 1)) as u64;
            assert(s < msb);
            lemma_fits_shift(index, (h - 1) as nat);
            assert(index >> s != 0) by (bit_vector)
                requires
                    (index >> ((msb - 1) as u64)) & 1 == 1,
                    s < msb,
                    msb <= 64,
            ;
        }
    }
    h
}

/// A slot of a segment: empty, a child segment (above the leaf level), or a
/// stored value (at the leaf level).
pub enum Slot<T> {
    Empty,
    Child(Box<Segment<T>>),
    Leaf(T),
}

/// A node of the tree: a fixed number of slots.
pub struct Segment<T> {
    inner: Vec<Slot<T>>,
}

impl<T> Segment<T> {
    /// The segment is the root of a well-formed tree of height `h`.
    pub closed spec fn wf(&self, h: nat) -> bool
        decreases h,
    {
        &&& self.inner.len() == SEGMENT_SIZE
        &&& 1 <= h <= 7
        &&& forall|d: int|
            0 <= d < SEGMENT_SIZE ==> match #[trigger] self.inner@[d] {
                Slot::Empty => true,
                Slot::Leaf(_) => h == 1,
                Slot::Child(c) => h > 1 && c.wf((h - 1) as nat),
            }
    }

    /// The value that the tree of height `h` rooted here holds for `index`.
    pub closed spec fn lookup(&self, h: nat, index: u64) -> Option<T>
        decreases h,
    {
        if h == 0 {
            None
        } else {
            match self.inner@[digit(index, (h - 1) as nat) as int] {
                Slot::Leaf(v) => if h == 1 {
                    Some(v)
                } else {
                    None
                },
                Slot::Child(c) => if h > 1 {
                    c.lookup((h - 1) as nat, index)
                } else {
                    None
                },
                Slot::Empty => None,
            }
        }
    }

    /// The slots of the segment.
    pub closed spec fn slots(&self) -> Seq<Slot<T>> {
        self.inner@
    }

    /// Returns slot `index` of the segment.
    pub fn get_unchecked(&self, index: usize) -> (r: &Slot<T>)
        requires
            index < self.slots().len(),
        ensures
            *r == self.slots()[index as int],
    {
        &self.inner[index]
    }

    /// An empty segment.
    fn new() -> (r: Self)
        ensures
            forall|h: nat| 1 <= h <= 7 ==> #[trigger] r.wf(h),
            forall|h: nat, index: u64| #[trigger] r.lookup(h, index) is None,
    {
        let mut inner: Vec<Slot<T>> = Vec::new();
        while inner.len() < SEGMENT_SIZE
            invariant
                inner.len() <= SEGMENT_SIZE,
                forall|d: int| 0 <= d < inner.len() ==> #[trigger] inner@[d] is Empty,
            decreases SEGMENT_SIZE - inner.len(),
        {
            inner.push(Slot::Empty);
        }
        let r = Segment { inner };
        assert forall|h: nat, index: u64| #[trigger] r.lookup(h, index) is None by {
            if h > 0 {
                lemma_digit_bound(index, (h - 1) as nat);
            }
        }
        r
    }

    /// Reads the value that the tree of height `h` rooted here holds for
    /// `index`, going down one level per call.
    fn get_val_at_index(&self, h: u64, index: u64) -> (r: Option<T>)
        where
            T: Copy,
        requires
            self.wf(h as nat),
        ensures
            r == self.lookup(h as nat, index),
        decreases h,
    {
        let d = get_bits_at(index, h - 1) as usize;
        match self.get_unchecked(d) {
            Slot::Leaf(v) => if h == 1 {
                Some(*v)
            } else {
                None
            },
            Slot::Child(c) => if h > 1 {
                c.get_val_at_index(h - 1, index)
            } else {
                None
            },
            Slot::Empty => None,
        }
    }

    /// Stores `v` for `index` in the tree of height `h` rooted here, creating
    /// the segments on the way that do not exist yet. Every index that
    /// agrees with `index` on the lowest `h` levels now holds `v`.
    fn set_val_at_index(self, h: u64, index: u64, v: T) -> (r: Self)
        requires
            self.wf(h as nat),
        ensures
            r.wf(h as nat),
            forall|j: u64|
                #[trigger] r.lookup(h as nat, j) == if low(j, h as nat) == low(index, h as nat) {
                    Some(v)
                } else {
                    self.lookup(h as nat, j)
                },
        decreases h,
    {
        let d = get_bits_at(index, h - 1) as usize;
        let ghost old_self = self;
        let mut inner = self.inner;
        let mut taken: Slot<T> = Slot::Empty;
        inner.set_and_swap(d, &mut taken);
        proof {
            assert(taken == old_self.inner@[d as int]);
        }
        if h == 1 {
            inner.set(d, Slot::Leaf(v));
            let r = Segment { inner };
            assert forall|j: u64|
                #[trigger] r.lookup(h as nat, j) == if low(j, h as nat) == low(index, h as nat) {
                    Some(v)
                } else {
                    old_self.lookup(h as nat, j)
                } by {
                lemma_low_split(j, index, 1);
                lemma_digit_bound(j, 0);
                assert(j & (((1u64 << 0u64) - 1) as u64) == 0) by (bit_vector);
                assert(index & (((1u64 << 0u64) - 1) as u64) == 0) by (bit_vector);
                assert(low(j, 0) == low(index, 0));
                if digit(j, 0) != d {
                    let dj = digit(j, 0) as int;
                    assert(r.inner@[dj] == old_self.inner@[dj]);
                }
            }
            r
        } else {
            let child: Segment<T> = match taken {
                Slot::Child(c) => *c,
                _ => Segment::new(),
            };
            let ghost old_child = child;
            let nc = child.set_val_at_index(h - 1, index, v);
            inner.set(d, Slot::Child(Box::new(nc)));
            let r = Segment { inner };
            assert forall|j: u64|
                #[trigger] r.lookup(h as nat, j) == if low(j, h as nat) == low(index, h as nat) {
                    Some(v)
                } else {
                    old_self.lookup(h as nat, j)
                } by {
                lemma_low_split(j, index, h as nat);
                lemma_digit_bound(j, (h - 1) as nat);
                if digit(j, (h - 1) as nat) == d {
                    assert(r.inner@[d as int] == Slot::Child(Box::new(nc)));
                    assert(r.lookup(h as nat, j) == nc.lookup((h - 1) as nat, j));
                    match taken {
                        Slot::Child(c) => {
                            assert(old_self.lookup(h as nat, j) == c.lookup((h - 1) as nat, j));
                            assert(old_child == *c);
                        },
                        _ => {
                            assert(old_self.lookup(h as nat, j) is None);
                            assert(old_child.lookup((h - 1) as nat, j) is None);
                        },
                    }
                    assert(nc.lookup((h - 1) as nat, j) == if low(j, (h - 1) as nat) == low(
                        index,
                        (h - 1) as nat,
                    ) {
                        Some(v)
                    } else {
                        old_child.lookup((h - 1) as nat, j)
                    });
                } else {
                    let dj = digit(j, (h - 1) as nat) as int;
                    assert(r.inner@[dj] == old_self.inner@[dj]);
                    assert(r.lookup(h as nat, j) == old_self.lookup(h as nat, j));
                }
            }
            r
        }
    }
}

/// A growable array of slots. Every index starts out empty; a slot can be
/// read, or given a value, for any index whatever, and the tree grows to
/// make room.
pub struct GrowableArray<T> {
    root: Option<Box<Segment<T>>>,
    height: u64,
}

impl<T> GrowableArray<T> {
    pub closed spec fn wf(&self) -> bool {
        match self.root {
            None => self.height == 0,
            Some(r) => 1 <= self.height <= MAX_HEIGHT && r.wf(self.height as nat),
        }
    }

    /// The number of levels of the tree; `0` while no segment exists.
    pub closed spec fn levels(&self) -> nat {
        self.height as nat
    }

    /// What slot `index` holds.
    pub closed spec fn slot(&self, index: u64) -> Option<T> {
        match self.root {
            None => None,
            Some(r) => if fits(index, self.height as nat) {
                r.lookup(self.height as nat, index)
            } else {
                None
            },
        }
    }

    /// Creates an array whose slots are all empty.
    pub fn new() -> (r: Self)
        ensures
            r.wf(),
            r.levels() == 0,
            forall|i: u64| #[trigger] r.slot(i) is None,
    {
        GrowableArray { root: None, height: 0 }
    }

    /// Adds levels above the root until the tree has height at least
    /// `height`; the old root becomes slot `0` of each new root.
    fn ensure_root_height(&mut self, height: u64)
        requires
            old(self).wf(),
            old(self).root is Some,
            height <= MAX_HEIGHT,
        ensures
            final(self).wf(),
            final(self).root is Some,
            final(self).levels() == if old(self).levels() >= height {
                old(self).levels()
            } else {
                height as nat
            },
            forall|i: u64| #[trigger] final(self).slot(i) == old(self).slot(i),
    {
        while self.height < height
            invariant
                self.wf(),
                self.root is Some,
                height <= MAX_HEIGHT,
                self.height >= old(self).height,
                self.height == old(self).height || self.height <= height,
                forall|i: u64| #[trigger] self.slot(i) == old(self).slot(i),
            decreases height - self.height,
        {
            let ghost prev = *self;
            let h = self.height;
            let old_root = self.root.take().unwrap();
            let seg: Segment<T> = Segment::new();
            assert(seg.wf((h + 1) as nat));
            let mut inner = seg.inner;
            inner.set(0, Slot::Child(old_root));
            let new_root = Segment { inner };
            assert(new_root.wf((h + 1) as nat)) by {
                assert forall|d: int| 0 <= d < SEGMENT_SIZE implies match #[trigger] new_root.inner@[d] {
                    Slot::Empty => true,
                    Slot::Leaf(_) => h + 1 == 1,
                    Slot::Child(c) => h + 1 > 1 && c.wf(h as nat),
                } by {
                    if d != 0 {
                        assert(seg.inner@[d] == new_root.inner@[d]);
                    }
                }
            }
            assert forall|i: u64| #[trigger]
                new_root.lookup((h + 1) as nat, i) == (if fits(i, h as nat) {
                    old_root.lookup(h as nat, i)
                } else {
                    None
                }) || !fits(i, (h + 1) as nat) by {
                lemma_fits_grow(i, h as nat);
                lemma_digit_bound(i, h as nat);
                if digit(i, h as nat) != 0 {
                    assert(seg.lookup((h + 1) as nat, i) is None);
                    let di = digit(i, h as nat) as int;
                    assert(seg.inner@[di] == new_root.inner@[di]);
                }
            }
            self.root = Some(Box::new(new_root));
            self.height = h + 1;
            assert forall|i: u64| #[trigger] self.slot(i) == prev.slot(i) by {
                lemma_fits_grow(i, h as nat);
            }
        }
    }

    /// Returns what slot `index` holds.
    pub fn get(&self, index: usize) -> (r: Option<T>)
        where
            T: Copy,
        requires
            self.wf(),
        ensures
            r == self.slot(index as u64),
    {
        let i = index as u64;
        match &self.root {
            None => None,
            Some(root) => {
                let fits_now = if self.height >= MAX_HEIGHT {
                    true
                } else {
                    i >> (self.height * SEGMENT_LOGSIZE) == 0
                };
                proof {
                    if self.height < MAX_HEIGHT {
                        lemma_fits_shift(i, self.height as nat);
                    }
                }
                if fits_now {
                    root.get_val_at_index(self.height, i)
                } else {
                    None
                }
            },
        }
    }

    /// Gives slot `index` the value `v`, growing the tree as needed; every
    /// other slot keeps what it held.
    pub fn set(&mut self, index: usize, v: T)
        requires
            old(self).wf(),
        ensures
            final(self).wf(),
            final(self).levels() >= old(self).levels(),
            fits(index as u64, final(self).levels()),
            final(self).levels() > old(self).levels() ==> final(self).levels() == 1 || !fits(
                index as u64,
                (final(self).levels() - 1) as nat,
            ),
            final(self).slot(index as u64) == Some(v),
            forall|j: u64| j != index as u64 ==> #[trigger] final(self).slot(j) == old(self).slot(j),
    {
        let i = index as u64;
        if self.root.is_none() {
            let seg: Segment<T> = Segment::new();
            self.root = Some(Box::new(seg));
            self.height = 1;
        }
        assert forall|j: u64| #[trigger] self.slot(j) == old(self).slot(j) by {}
        let need = height_for(i);
        self.ensure_root_height(need);
        let ghost mid = *self;
        let h = self.height;
        let root = self.root.take().unwrap();
        let new_root = (*root).set_val_at_index(h, i, v);
        self.root = Some(Box::new(new_root));
        proof {
            assert(fits(i, h as nat)) by {
                if h < 7 {
                    assert(need <= h);
                    lemma_fits_mono(i, need as nat, h as nat);
                }
            }
            assert forall|j: u64| j != i implies #[trigger] self.slot(j) == mid.slot(j) by {
                if fits(j, h as nat) {
                    assert(low(j, h as nat) != low(i, h as nat));
                }
            }
        }
    }
}

impl<T> Default for GrowableArray<T> {
    fn default() -> (r: Self)
        ensures
            r.wf(),
            r.levels() == 0,
            forall|i: u64| #[trigger] r.slot(i) is None,
    {
        Self::new()
    }
}

} // verus!
