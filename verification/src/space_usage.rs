//! A trait for computing space usage.

use vstd::prelude::*;

verus! {

/// `n`, or `usize::MAX` where `n` is larger: a count as a saturating sum gives it.
pub open spec fn saturated(n: nat) -> nat {
    if n < usize::MAX {
        n
    } else {
        usize::MAX as nat
    }
}

/// The bytes that the first `n` values of `s` surely own on the heap, summed.
pub open spec fn heap_floor_sum<A: SpaceUsage>(s: Seq<A>, n: nat) -> nat
    decreases n,
{
    if n == 0 {
        0
    } else {
        heap_floor_sum(s, (n - 1) as nat) + s[n - 1].spec_heap_floor()
    }
}

/// The sum of `s`.
pub open spec fn nat_sum(s: Seq<nat>) -> nat
    decreases s.len(),
{
    if s.len() == 0 {
        0
    } else {
        nat_sum(s.drop_last()) + s.last()
    }
}

/// What `heap_bytes` of a vector of `s` gives, for a capacity of `c` elements and heap
/// portions `hs` of the elements: `c` elements' worth, plus, unless the elements are
/// stack-only, what they own, summed with saturation.
pub open spec fn vec_heap_outcome<A: SpaceUsage>(s: Seq<A>, c: nat, hs: Seq<nat>, h: nat) -> bool {
    &&& c >= s.len()
    &&& c * vstd::layout::size_of::<A>() <= isize::MAX
    &&& if A::spec_stack_only() {
        h == c * vstd::layout::size_of::<A>()
    } else {
        &&& hs.len() == s.len()
        &&& forall|i: int| 0 <= i < s.len() ==> #[trigger] s[i].spec_heap_outcome(hs[i])
        &&& h == saturated(c * vstd::layout::size_of::<A>() + nat_sum(hs))
    }
}

/// Computes the space usage of an object.
///
/// The usage splits into a stack portion, the statically known size of the type
/// (`stack_bytes`), and a heap portion, the storage that the value owns (`heap_bytes`). A
/// type is stack-only when its heap portion is always zero.
///
/// How much a value owns on the heap rests in part on the allocator (a vector may hold more
/// room than its elements need); `spec_heap_floor` is what it surely owns: the storage of
/// its contents in use. The heap portion is never below it, up to saturation, and
/// `spec_heap_outcome` says what it is for each choice of capacities.
pub trait SpaceUsage: Sized {
    /// Whether the type is stack-only.
    spec fn spec_stack_only() -> bool;

    /// The heap bytes that the receiver surely owns: those of the contents in use.
    spec fn spec_heap_floor(&self) -> nat;

    /// Whether `h` is a heap portion that `heap_bytes` may give for the receiver: what holds
    /// of the count whatever capacities the allocator chose.
    spec fn spec_heap_outcome(&self, h: nat) -> bool;

    /// Computes the size of the receiver in bytes: the stack portion plus the heap portion,
    /// saturating at `usize::MAX`.
    fn total_bytes(&self) -> (r: usize)
        ensures
            r >= vstd::layout::size_of::<Self>(),
            r >= saturated(vstd::layout::size_of::<Self>() + self.spec_heap_floor()),
            Self::spec_stack_only() ==> r == vstd::layout::size_of::<Self>(),
            exists|h: nat|
                #[trigger] self.spec_heap_outcome(h) && r == saturated(
                    vstd::layout::size_of::<Self>() + h,
                ),
    {
        let stack = Self::stack_bytes();
        let heap = self.heap_bytes();
        stack.saturating_add(heap)
    }

    /// Is the size of this type known statically?
    fn is_stack_only() -> (r: bool)
        ensures
            r == Self::spec_stack_only(),
    ;

    /// The stack portion of the size of this type: `size_of::<Self>()`.
    fn stack_bytes() -> (r: usize)
        ensures
            r == vstd::layout::size_of::<Self>(),
    {
        core::mem::size_of::<Self>()
    }

    /// The heap portion of the size of the receiver: the memory that it owns beyond its
    /// stack portion. It is zero for stack-only types, and never below what the contents
    /// in use take, saturating at `usize::MAX`.
    fn heap_bytes(&self) -> (r: usize)
        ensures
            Self::spec_stack_only() ==> r == 0,
            r >= saturated(self.spec_heap_floor()),
            self.spec_heap_outcome(r as nat),
    ;
}

impl SpaceUsage for () {
    open spec fn spec_stack_only() -> bool {
        true
    }

    open spec fn spec_heap_floor(&self) -> nat {
        0
    }

    open spec fn spec_heap_outcome(&self, h: nat) -> bool {
        h == 0
    }

    fn is_stack_only() -> (r: bool) {
        true
    }

    fn heap_bytes(&self) -> (r: usize) {
        0
    }
}

impl SpaceUsage for u8 {
    open spec fn spec_stack_only() -> bool {
        true
    }

    open spec fn spec_heap_floor(&self) -> nat {
        0
    }

    open spec fn spec_heap_outcome(&self, h: nat) -> bool {
        h == 0
    }

    fn is_stack_only() -> (r: bool) {
        true
    }

    fn heap_bytes(&self) -> (r: usize) {
        0
    }
}

impl SpaceUsage for u16 {
    open spec fn spec_stack_only() -> bool {
        true
    }

    open spec fn spec_heap_floor(&self) -> nat {
        0
    }

    open spec fn spec_heap_outcome(&self, h: nat) -> bool {
        h == 0
    }

    fn is_stack_only() -> (r: bool) {
        true
    }

    fn heap_bytes(&self) -> (r: usize) {
        0
    }
}

impl SpaceUsage for u32 {
    open spec fn spec_stack_only() -> bool {
        true
    }

    open spec fn spec_heap_floor(&self) -> nat {
        0
    }

    open spec fn spec_heap_outcome(&self, h: nat) -> bool {
        h == 0
    }

    fn is_stack_only() -> (r: bool) {
        true
    }

    fn heap_bytes(&self) -> (r: usize) {
        0
    }
}

impl SpaceUsage for u64 {
    open spec fn spec_stack_only() -> bool {
        true
    }

    open spec fn spec_heap_floor(&self) -> nat {
        0
    }

    open spec fn spec_heap_outcome(&self, h: nat) -> bool {
        h == 0
    }

    fn is_stack_only() -> (r: bool) {
        true
    }

    fn heap_bytes(&self) -> (r: usize) {
        0
    }
}

impl SpaceUsage for usize {
    open spec fn spec_stack_only() -> bool {
        true
    }

    open spec fn spec_heap_floor(&self) -> nat {
        0
    }

    open spec fn spec_heap_outcome(&self, h: nat) -> bool {
        h == 0
    }

    fn is_stack_only() -> (r: bool) {
        true
    }

    fn heap_bytes(&self) -> (r: usize) {
        0
    }
}

impl SpaceUsage for i8 {
    open spec fn spec_stack_only() -> bool {
        true
    }

    open spec fn spec_heap_floor(&self) -> nat {
        0
    }

    open spec fn spec_heap_outcome(&self, h: nat) -> bool {
        h == 0
    }

    fn is_stack_only() -> (r: bool) {
        true
    }

    fn heap_bytes(&self) -> (r: usize) {
        0
    }
}

impl SpaceUsage for i16 {
    open spec fn spec_stack_only() -> bool {
        true
    }

    open spec fn spec_heap_floor(&self) -> nat {
        0
    }

    open spec fn spec_heap_outcome(&self, h: nat) -> bool {
        h == 0
    }

    fn is_stack_only() -> (r: bool) {
        true
    }

    fn heap_bytes(&self) -> (r: usize) {
        0
    }
}

impl SpaceUsage for i32 {
    open spec fn spec_stack_only() -> bool {
        true
    }

    open spec fn spec_heap_floor(&self) -> nat {
        0
    }

    open spec fn spec_heap_outcome(&self, h: nat) -> bool {
        h == 0
    }

    fn is_stack_only() -> (r: bool) {
        true
    }

    fn heap_bytes(&self) -> (r: usize) {
        0
    }
}

impl SpaceUsage for i64 {
    open spec fn spec_stack_only() -> bool {
        true
    }

    open spec fn spec_heap_floor(&self) -> nat {
        0
    }

    open spec fn spec_heap_outcome(&self, h: nat) -> bool {
        h == 0
    }

    fn is_stack_only() -> (r: bool) {
        true
    }

    fn heap_bytes(&self) -> (r: usize) {
        0
    }
}

impl SpaceUsage for isize {
    open spec fn spec_stack_only() -> bool {
        true
    }

    open spec fn spec_heap_floor(&self) -> nat {
        0
    }

    open spec fn spec_heap_outcome(&self, h: nat) -> bool {
        h == 0
    }

    fn is_stack_only() -> (r: bool) {
        true
    }

    fn heap_bytes(&self) -> (r: usize) {
        0
    }
}

impl<'a, T> SpaceUsage for &'a T {
    open spec fn spec_stack_only() -> bool {
        true
    }

    open spec fn spec_heap_floor(&self) -> nat {
        0
    }

    open spec fn spec_heap_outcome(&self, h: nat) -> bool {
        h == 0
    }

    fn is_stack_only() -> (r: bool) {
        true
    }

    fn heap_bytes(&self) -> (r: usize) {
        0
    }
}

impl<'a, T> SpaceUsage for &'a [T] {
    open spec fn spec_stack_only() -> bool {
        true
    }

    open spec fn spec_heap_floor(&self) -> nat {
        0
    }

    open spec fn spec_heap_outcome(&self, h: nat) -> bool {
        h == 0
    }

    fn is_stack_only() -> (r: bool) {
        true
    }

    fn heap_bytes(&self) -> (r: usize) {
        0
    }
}

/// A tuple owns what its components own, summed with saturation.
impl<A: SpaceUsage> SpaceUsage for (A,) {
    open spec fn spec_stack_only() -> bool {
        A::spec_stack_only()
    }

    open spec fn spec_heap_floor(&self) -> nat {
        self.0.spec_heap_floor()
    }

    open spec fn spec_heap_outcome(&self, h: nat) -> bool {
        exists|h0: nat|
            #![trigger self.0.spec_heap_outcome(h0)]
            self.0.spec_heap_outcome(h0) && h == saturated(h0)
    }

    fn is_stack_only() -> (r: bool) {
        A::is_stack_only()
    }

    fn heap_bytes(&self) -> (r: usize) {
        let h0 = self.0.heap_bytes();
        let mut r: usize = 0;
        r = r.saturating_add(h0);
        r
    }
}

/// A tuple owns what its components own, summed with saturation.
impl<A: SpaceUsage, B: SpaceUsage> SpaceUsage for (A, B) {
    open spec fn spec_stack_only() -> bool {
        A::spec_stack_only() && B::spec_stack_only()
    }

    open spec fn spec_heap_floor(&self) -> nat {
        self.0.spec_heap_floor() + self.1.spec_heap_floor()
    }

    open spec fn spec_heap_outcome(&self, h: nat) -> bool {
        exists|h0: nat, h1: nat|
            #![trigger self.0.spec_heap_outcome(h0), self.1.spec_heap_outcome(h1)]
            self.0.spec_heap_outcome(h0) && self.1.spec_heap_outcome(h1) && h == saturated(h0 + h1)
    }

    fn is_stack_only() -> (r: bool) {
        A::is_stack_only() && B::is_stack_only()
    }

    fn heap_bytes(&self) -> (r: usize) {
        let h0 = self.0.heap_bytes();
        let h1 = self.1.heap_bytes();
        let mut r: usize = 0;
        r = r.saturating_add(h0);
        r = r.saturating_add(h1);
        r
    }
}

/// A tuple owns what its components own, summed with saturation.
impl<A: SpaceUsage, B: SpaceUsage, C: SpaceUsage> SpaceUsage for (A, B, C) {
    open spec fn spec_stack_only() -> bool {
        A::spec_stack_only() && B::spec_stack_only() && C::spec_stack_only()
    }

    open spec fn spec_heap_floor(&self) -> nat {
        self.0.spec_heap_floor() + self.1.spec_heap_floor() + self.2.spec_heap_floor()
    }

    open spec fn spec_heap_outcome(&self, h: nat) -> bool {
        exists|h0: nat, h1: nat, h2: nat|
            #![trigger self.0.spec_heap_outcome(h0), self.1.spec_heap_outcome(h1), self.2.spec_heap_outcome(h2)]
            self.0.spec_heap_outcome(h0) && self.1.spec_heap_outcome(h1) && self.2.spec_heap_outcome(h2) && h == saturated(h0 + h1 + h2)
    }

    fn is_stack_only() -> (r: bool) {
        A::is_stack_only() && B::is_stack_only() && C::is_stack_only()
    }

    fn heap_bytes(&self) -> (r: usize) {
        let h0 = self.0.heap_bytes();
        let h1 = self.1.heap_bytes();
        let h2 = self.2.heap_bytes();
        let mut r: usize = 0;
        r = r.saturating_add(h0);
        r = r.saturating_add(h1);
        r = r.saturating_add(h2);
        r
    }
}

/// A tuple owns what its components own, summed with saturation.
impl<A: SpaceUsage, B: SpaceUsage, C: SpaceUsage, D: SpaceUsage> SpaceUsage for (A, B, C, D) {
    open spec fn spec_stack_only() -> bool {
        A::spec_stack_only() && B::spec_stack_only() && C::spec_stack_only() && D::spec_stack_only()
    }

    open spec fn spec_heap_floor(&self) -> nat {
        self.0.spec_heap_floor() + self.1.spec_heap_floor() + self.2.spec_heap_floor() + self.3.spec_heap_floor()
    }

    open spec fn spec_heap_outcome(&self, h: nat) -> bool {
        exists|h0: nat, h1: nat, h2: nat, h3: nat|
            #![trigger self.0.spec_heap_outcome(h0), self.1.spec_heap_outcome(h1), self.2.spec_heap_outcome(h2), self.3.spec_heap_outcome(h3)]
            self.0.spec_heap_outcome(h0) && self.1.spec_heap_outcome(h1) && self.2.spec_heap_outcome(h2) && self.3.spec_heap_outcome(h3) && h == saturated(h0 + h1 + h2 + h3)
    }

    fn is_stack_only() -> (r: bool) {
        A::is_stack_only() && B::is_stack_only() && C::is_stack_only() && D::is_stack_only()
    }

    fn heap_bytes(&self) -> (r: usize) {
        let h0 = self.0.heap_bytes();
        let h1 = self.1.heap_bytes();
        let h2 = self.2.heap_bytes();
        let h3 = self.3.heap_bytes();
        let mut r: usize = 0;
        r = r.saturating_add(h0);
        r = r.saturating_add(h1);
        r = r.saturating_add(h2);
        r = r.saturating_add(h3);
        r
    }
}

/// A tuple owns what its components own, summed with saturation.
impl<A: SpaceUsage, B: SpaceUsage, C: SpaceUsage, D: SpaceUsage, E: SpaceUsage> SpaceUsage for (A, B, C, D, E) {
    open spec fn spec_stack_only() -> bool {
        A::spec_stack_only() && B::spec_stack_only() && C::spec_stack_only() && D::spec_stack_only() && E::spec_stack_only()
    }

    open spec fn spec_heap_floor(&self) -> nat {
        self.0.spec_heap_floor() + self.1.spec_heap_floor() + self.2.spec_heap_floor() + self.3.spec_heap_floor() + self.4.spec_heap_floor()
    }

    open spec fn spec_heap_outcome(&self, h: nat) -> bool {
        exists|h0: nat, h1: nat, h2: nat, h3: nat, h4: nat|
            #![trigger self.0.spec_heap_outcome(h0), self.1.spec_heap_outcome(h1), self.2.spec_heap_outcome(h2), self.3.spec_heap_outcome(h3), self.4.spec_heap_outcome(h4)]
            self.0.spec_heap_outcome(h0) && self.1.spec_heap_outcome(h1) && self.2.spec_heap_outcome(h2) && self.3.spec_heap_outcome(h3) && self.4.spec_heap_outcome(h4) && h == saturated(h0 + h1 + h2 + h3 + h4)
    }

    fn is_stack_only() -> (r: bool) {
        A::is_stack_only() && B::is_stack_only() && C::is_stack_only() && D::is_stack_only() && E::is_stack_only()
    }

    fn heap_bytes(&self) -> (r: usize) {
        let h0 = self.0.heap_bytes();
        let h1 = self.1.heap_bytes();
        let h2 = self.2.heap_bytes();
        let h3 = self.3.heap_bytes();
        let h4 = self.4.heap_bytes();
        let mut r: usize = 0;
        r = r.saturating_add(h0);
        r = r.saturating_add(h1);
        r = r.saturating_add(h2);
        r = r.saturating_add(h3);
        r = r.saturating_add(h4);
        r
    }
}

/// A tuple owns what its components own, summed with saturation.
impl<A: SpaceUsage, B: SpaceUsage, C: SpaceUsage, D: SpaceUsage, E: SpaceUsage, F: SpaceUsage> SpaceUsage for (A, B, C, D, E, F) {
    open spec fn spec_stack_only() -> bool {
        A::spec_stack_only() && B::spec_stack_only() && C::spec_stack_only() && D::spec_stack_only() && E::spec_stack_only() && F::spec_stack_only()
    }

    open spec fn spec_heap_floor(&self) -> nat {
        self.0.spec_heap_floor() + self.1.spec_heap_floor() + self.2.spec_heap_floor() + self.3.spec_heap_floor() + self.4.spec_heap_floor() + self.5.spec_heap_floor()
    }

    open spec fn spec_heap_outcome(&self, h: nat) -> bool {
        exists|h0: nat, h1: nat, h2: nat, h3: nat, h4: nat, h5: nat|
            #![trigger self.0.spec_heap_outcome(h0), self.1.spec_heap_outcome(h1), self.2.spec_heap_outcome(h2), self.3.spec_heap_outcome(h3), self.4.spec_heap_outcome(h4), self.5.spec_heap_outcome(h5)]
            self.0.spec_heap_outcome(h0) && self.1.spec_heap_outcome(h1) && self.2.spec_heap_outcome(h2) && self.3.spec_heap_outcome(h3) && self.4.spec_heap_outcome(h4) && self.5.spec_heap_outcome(h5) && h == saturated(h0 + h1 + h2 + h3 + h4 + h5)
    }

    fn is_stack_only() -> (r: bool) {
        A::is_stack_only() && B::is_stack_only() && C::is_stack_only() && D::is_stack_only() && E::is_stack_only() && F::is_stack_only()
    }

    fn heap_bytes(&self) -> (r: usize) {
        let h0 = self.0.heap_bytes();
        let h1 = self.1.heap_bytes();
        let h2 = self.2.heap_bytes();
        let h3 = self.3.heap_bytes();
        let h4 = self.4.heap_bytes();
        let h5 = self.5.heap_bytes();
        let mut r: usize = 0;
        r = r.saturating_add(h0);
        r = r.saturating_add(h1);
        r = r.saturating_add(h2);
        r = r.saturating_add(h3);
        r = r.saturating_add(h4);
        r = r.saturating_add(h5);
        r
    }
}

/// A tuple owns what its components own, summed with saturation.
impl<A: SpaceUsage, B: SpaceUsage, C: SpaceUsage, D: SpaceUsage, E: SpaceUsage, F: SpaceUsage, G: SpaceUsage> SpaceUsage for (A, B, C, D, E, F, G) {
    open spec fn spec_stack_only() -> bool {
        A::spec_stack_only() && B::spec_stack_only() && C::spec_stack_only() && D::spec_stack_only() && E::spec_stack_only() && F::spec_stack_only() && G::spec_stack_only()
    }

    open spec fn spec_heap_floor(&self) -> nat {
        self.0.spec_heap_floor() + self.1.spec_heap_floor() + self.2.spec_heap_floor() + self.3.spec_heap_floor() + self.4.spec_heap_floor() + self.5.spec_heap_floor() + self.6.spec_heap_floor()
    }

    open spec fn spec_heap_outcome(&self, h: nat) -> bool {
        exists|h0: nat, h1: nat, h2: nat, h3: nat, h4: nat, h5: nat, h6: nat|
            #![trigger self.0.spec_heap_outcome(h0), self.1.spec_heap_outcome(h1), self.2.spec_heap_outcome(h2), self.3.spec_heap_outcome(h3), self.4.spec_heap_outcome(h4), self.5.spec_heap_outcome(h5), self.6.spec_heap_outcome(h6)]
            self.0.spec_heap_outcome(h0) && self.1.spec_heap_outcome(h1) && self.2.spec_heap_outcome(h2) && self.3.spec_heap_outcome(h3) && self.4.spec_heap_outcome(h4) && self.5.spec_heap_outcome(h5) && self.6.spec_heap_outcome(h6) && h == saturated(h0 + h1 + h2 + h3 + h4 + h5 + h6)
    }

    fn is_stack_only() -> (r: bool) {
        A::is_stack_only() && B::is_stack_only() && C::is_stack_only() && D::is_stack_only() && E::is_stack_only() && F::is_stack_only() && G::is_stack_only()
    }

    fn heap_bytes(&self) -> (r: usize) {
        let h0 = self.0.heap_bytes();
        let h1 = self.1.heap_bytes();
        let h2 = self.2.heap_bytes();
        let h3 = self.3.heap_bytes();
        let h4 = self.4.heap_bytes();
        let h5 = self.5.heap_bytes();
        let h6 = self.6.heap_bytes();
        let mut r: usize = 0;
        r = r.saturating_add(h0);
        r = r.saturating_add(h1);
        r = r.saturating_add(h2);
        r = r.saturating_add(h3);
        r = r.saturating_add(h4);
        r = r.saturating_add(h5);
        r = r.saturating_add(h6);
        r
    }
}

/// A tuple owns what its components own, summed with saturation.
impl<A: SpaceUsage, B: SpaceUsage, C: SpaceUsage, D: SpaceUsage, E: SpaceUsage, F: SpaceUsage, G: SpaceUsage, H: SpaceUsage> SpaceUsage for (A, B, C, D, E, F, G, H) {
    open spec fn spec_stack_only() -> bool {
        A::spec_stack_only() && B::spec_stack_only() && C::spec_stack_only() && D::spec_stack_only() && E::spec_stack_only() && F::spec_stack_only() && G::spec_stack_only() && H::spec_stack_only()
    }

    open spec fn spec_heap_floor(&self) -> nat {
        self.0.spec_heap_floor() + self.1.spec_heap_floor() + self.2.spec_heap_floor() + self.3.spec_heap_floor() + self.4.spec_heap_floor() + self.5.spec_heap_floor() + self.6.spec_heap_floor() + self.7.spec_heap_floor()
    }

    open spec fn spec_heap_outcome(&self, h: nat) -> bool {
        exists|h0: nat, h1: nat, h2: nat, h3: nat, h4: nat, h5: nat, h6: nat, h7: nat|
            #![trigger self.0.spec_heap_outcome(h0), self.1.spec_heap_outcome(h1), self.2.spec_heap_outcome(h2), self.3.spec_heap_outcome(h3), self.4.spec_heap_outcome(h4), self.5.spec_heap_outcome(h5), self.6.spec_heap_outcome(h6), self.7.spec_heap_outcome(h7)]
            self.0.spec_heap_outcome(h0) && self.1.spec_heap_outcome(h1) && self.2.spec_heap_outcome(h2) && self.3.spec_heap_outcome(h3) && self.4.spec_heap_outcome(h4) && self.5.spec_heap_outcome(h5) && self.6.spec_heap_outcome(h6) && self.7.spec_heap_outcome(h7) && h == saturated(h0 + h1 + h2 + h3 + h4 + h5 + h6 + h7)
    }

    fn is_stack_only() -> (r: bool) {
        A::is_stack_only() && B::is_stack_only() && C::is_stack_only() && D::is_stack_only() && E::is_stack_only() && F::is_stack_only() && G::is_stack_only() && H::is_stack_only()
    }

    fn heap_bytes(&self) -> (r: usize) {
        let h0 = self.0.heap_bytes();
        let h1 = self.1.heap_bytes();
        let h2 = self.2.heap_bytes();
        let h3 = self.3.heap_bytes();
        let h4 = self.4.heap_bytes();
        let h5 = self.5.heap_bytes();
        let h6 = self.6.heap_bytes();
        let h7 = self.7.heap_bytes();
        let mut r: usize = 0;
        r = r.saturating_add(h0);
        r = r.saturating_add(h1);
        r = r.saturating_add(h2);
        r = r.saturating_add(h3);
        r = r.saturating_add(h4);
        r = r.saturating_add(h5);
        r = r.saturating_add(h6);
        r = r.saturating_add(h7);
        r
    }
}

/// A tuple owns what its components own, summed with saturation.
impl<A: SpaceUsage, B: SpaceUsage, C: SpaceUsage, D: SpaceUsage, E: SpaceUsage, F: SpaceUsage, G: SpaceUsage, H: SpaceUsage, I: SpaceUsage> SpaceUsage for (A, B, C, D, E, F, G, H, I) {
    open spec fn spec_stack_only() -> bool {
        A::spec_stack_only() && B::spec_stack_only() && C::spec_stack_only() && D::spec_stack_only() && E::spec_stack_only() && F::spec_stack_only() && G::spec_stack_only() && H::spec_stack_only() && I::spec_stack_only()
    }

    open spec fn spec_heap_floor(&self) -> nat {
        self.0.spec_heap_floor() + self.1.spec_heap_floor() + self.2.spec_heap_floor() + self.3.spec_heap_floor() + self.4.spec_heap_floor() + self.5.spec_heap_floor() + self.6.spec_heap_floor() + self.7.spec_heap_floor() + self.8.spec_heap_floor()
    }

    open spec fn spec_heap_outcome(&self, h: nat) -> bool {
        exists|h0: nat, h1: nat, h2: nat, h3: nat, h4: nat, h5: nat, h6: nat, h7: nat, h8: nat|
            #![trigger self.0.spec_heap_outcome(h0), self.1.spec_heap_outcome(h1), self.2.spec_heap_outcome(h2), self.3.spec_heap_outcome(h3), self.4.spec_heap_outcome(h4), self.5.spec_heap_outcome(h5), self.6.spec_heap_outcome(h6), self.7.spec_heap_outcome(h7), self.8.spec_heap_outcome(h8)]
            self.0.spec_heap_outcome(h0) && self.1.spec_heap_outcome(h1) && self.2.spec_heap_outcome(h2) && self.3.spec_heap_outcome(h3) && self.4.spec_heap_outcome(h4) && self.5.spec_heap_outcome(h5) && self.6.spec_heap_outcome(h6) && self.7.spec_heap_outcome(h7) && self.8.spec_heap_outcome(h8) && h == saturated(h0 + h1 + h2 + h3 + h4 + h5 + h6 + h7 + h8)
    }

    fn is_stack_only() -> (r: bool) {
        A::is_stack_only() && B::is_stack_only() && C::is_stack_only() && D::is_stack_only() && E::is_stack_only() && F::is_stack_only() && G::is_stack_only() && H::is_stack_only() && I::is_stack_only()
    }

    fn heap_bytes(&self) -> (r: usize) {
        let h0 = self.0.heap_bytes();
        let h1 = self.1.heap_bytes();
        let h2 = self.2.heap_bytes();
        let h3 = self.3.heap_bytes();
        let h4 = self.4.heap_bytes();
        let h5 = self.5.heap_bytes();
        let h6 = self.6.heap_bytes();
        let h7 = self.7.heap_bytes();
        let h8 = self.8.heap_bytes();
        let mut r: usize = 0;
        r = r.saturating_add(h0);
        r = r.saturating_add(h1);
        r = r.saturating_add(h2);
        r = r.saturating_add(h3);
        r = r.saturating_add(h4);
        r = r.saturating_add(h5);
        r = r.saturating_add(h6);
        r = r.saturating_add(h7);
        r = r.saturating_add(h8);
        r
    }
}

/// A tuple owns what its components own, summed with saturation.
impl<A: SpaceUsage, B: SpaceUsage, C: SpaceUsage, D: SpaceUsage, E: SpaceUsage, F: SpaceUsage, G: SpaceUsage, H: SpaceUsage, I: SpaceUsage, J: SpaceUsage> SpaceUsage for (A, B, C, D, E, F, G, H, I, J) {
    open spec fn spec_stack_only() -> bool {
        A::spec_stack_only() && B::spec_stack_only() && C::spec_stack_only() && D::spec_stack_only() && E::spec_stack_only() && F::spec_stack_only() && G::spec_stack_only() && H::spec_stack_only() && I::spec_stack_only() && J::spec_stack_only()
    }

    open spec fn spec_heap_floor(&self) -> nat {
        self.0.spec_heap_floor() + self.1.spec_heap_floor() + self.2.spec_heap_floor() + self.3.spec_heap_floor() + self.4.spec_heap_floor() + self.5.spec_heap_floor() + self.6.spec_heap_floor() + self.7.spec_heap_floor() + self.8.spec_heap_floor() + self.9.spec_heap_floor()
    }

    open spec fn spec_heap_outcome(&self, h: nat) -> bool {
        exists|h0: nat, h1: nat, h2: nat, h3: nat, h4: nat, h5: nat, h6: nat, h7: nat, h8: nat, h9: nat|
            #![trigger self.0.spec_heap_outcome(h0), self.1.spec_heap_outcome(h1), self.2.spec_heap_outcome(h2), self.3.spec_heap_outcome(h3), self.4.spec_heap_outcome(h4), self.5.spec_heap_outcome(h5), self.6.spec_heap_outcome(h6), self.7.spec_heap_outcome(h7), self.8.spec_heap_outcome(h8), self.9.spec_heap_outcome(h9)]
            self.0.spec_heap_outcome(h0) && self.1.spec_heap_outcome(h1) && self.2.spec_heap_outcome(h2) && self.3.spec_heap_outcome(h3) && self.4.spec_heap_outcome(h4) && self.5.spec_heap_outcome(h5) && self.6.spec_heap_outcome(h6) && self.7.spec_heap_outcome(h7) && self.8.spec_heap_outcome(h8) && self.9.spec_heap_outcome(h9) && h == saturated(h0 + h1 + h2 + h3 + h4 + h5 + h6 + h7 + h8 + h9)
    }

    fn is_stack_only() -> (r: bool) {
        A::is_stack_only() && B::is_stack_only() && C::is_stack_only() && D::is_stack_only() && E::is_stack_only() && F::is_stack_only() && G::is_stack_only() && H::is_stack_only() && I::is_stack_only() && J::is_stack_only()
    }

    fn heap_bytes(&self) -> (r: usize) {
        let h0 = self.0.heap_bytes();
        let h1 = self.1.heap_bytes();
        let h2 = self.2.heap_bytes();
        let h3 = self.3.heap_bytes();
        let h4 = self.4.heap_bytes();
        let h5 = self.5.heap_bytes();
        let h6 = self.6.heap_bytes();
        let h7 = self.7.heap_bytes();
        let h8 = self.8.heap_bytes();
        let h9 = self.9.heap_bytes();
        let mut r: usize = 0;
        r = r.saturating_add(h0);
        r = r.saturating_add(h1);
        r = r.saturating_add(h2);
        r = r.saturating_add(h3);
        r = r.saturating_add(h4);
        r = r.saturating_add(h5);
        r = r.saturating_add(h6);
        r = r.saturating_add(h7);
        r = r.saturating_add(h8);
        r = r.saturating_add(h9);
        r
    }
}

/// A tuple owns what its components own, summed with saturation.
impl<A: SpaceUsage, B: SpaceUsage, C: SpaceUsage, D: SpaceUsage, E: SpaceUsage, F: SpaceUsage, G: SpaceUsage, H: SpaceUsage, I: SpaceUsage, J: SpaceUsage, K: SpaceUsage> SpaceUsage for (A, B, C, D, E, F, G, H, I, J, K) {
    open spec fn spec_stack_only() -> bool {
        A::spec_stack_only() && B::spec_stack_only() && C::spec_stack_only() && D::spec_stack_only() && E::spec_stack_only() && F::spec_stack_only() && G::spec_stack_only() && H::spec_stack_only() && I::spec_stack_only() && J::spec_stack_only() && K::spec_stack_only()
    }

    open spec fn spec_heap_floor(&self) -> nat {
        self.0.spec_heap_floor() + self.1.spec_heap_floor() + self.2.spec_heap_floor() + self.3.spec_heap_floor() + self.4.spec_heap_floor() + self.5.spec_heap_floor() + self.6.spec_heap_floor() + self.7.spec_heap_floor() + self.8.spec_heap_floor() + self.9.spec_heap_floor() + self.10.spec_heap_floor()
    }

    open spec fn spec_heap_outcome(&self, h: nat) -> bool {
        exists|h0: nat, h1: nat, h2: nat, h3: nat, h4: nat, h5: nat, h6: nat, h7: nat, h8: nat, h9: nat, h10: nat|
            #![trigger self.0.spec_heap_outcome(h0), self.1.spec_heap_outcome(h1), self.2.spec_heap_outcome(h2), self.3.spec_heap_outcome(h3), self.4.spec_heap_outcome(h4), self.5.spec_heap_outcome(h5), self.6.spec_heap_outcome(h6), self.7.spec_heap_outcome(h7), self.8.spec_heap_outcome(h8), self.9.spec_heap_outcome(h9), self.10.spec_heap_outcome(h10)]
            self.0.spec_heap_outcome(h0) && self.1.spec_heap_outcome(h1) && self.2.spec_heap_outcome(h2) && self.3.spec_heap_outcome(h3) && self.4.spec_heap_outcome(h4) && self.5.spec_heap_outcome(h5) && self.6.spec_heap_outcome(h6) && self.7.spec_heap_outcome(h7) && self.8.spec_heap_outcome(h8) && self.9.spec_heap_outcome(h9) && self.10.spec_heap_outcome(h10) && h == saturated(h0 + h1 + h2 + h3 + h4 + h5 + h6 + h7 + h8 + h9 + h10)
    }

    fn is_stack_only() -> (r: bool) {
        A::is_stack_only() && B::is_stack_only() && C::is_stack_only() && D::is_stack_only() && E::is_stack_only() && F::is_stack_only() && G::is_stack_only() && H::is_stack_only() && I::is_stack_only() && J::is_stack_only() && K::is_stack_only()
    }

    fn heap_bytes(&self) -> (r: usize) {
        let h0 = self.0.heap_bytes();
        let h1 = self.1.heap_bytes();
        let h2 = self.2.heap_bytes();
        let h3 = self.3.heap_bytes();
        let h4 = self.4.heap_bytes();
        let h5 = self.5.heap_bytes();
        let h6 = self.6.heap_bytes();
        let h7 = self.7.heap_bytes();
        let h8 = self.8.heap_bytes();
        let h9 = self.9.heap_bytes();
        let h10 = self.10.heap_bytes();
        let mut r: usize = 0;
        r = r.saturating_add(h0);
        r = r.saturating_add(h1);
        r = r.saturating_add(h2);
        r = r.saturating_add(h3);
        r = r.saturating_add(h4);
        r = r.saturating_add(h5);
        r = r.saturating_add(h6);
        r = r.saturating_add(h7);
        r = r.saturating_add(h8);
        r = r.saturating_add(h9);
        r = r.saturating_add(h10);
        r
    }
}

/// A tuple owns what its components own, summed with saturation.
impl<A: SpaceUsage, B: SpaceUsage, C: SpaceUsage, D: SpaceUsage, E: SpaceUsage, F: SpaceUsage, G: SpaceUsage, H: SpaceUsage, I: SpaceUsage, J: SpaceUsage, K: SpaceUsage, L: SpaceUsage> SpaceUsage for (A, B, C, D, E, F, G, H, I, J, K, L) {
    open spec fn spec_stack_only() -> bool {
        A::spec_stack_only() && B::spec_stack_only() && C::spec_stack_only() && D::spec_stack_only() && E::spec_stack_only() && F::spec_stack_only() && G::spec_stack_only() && H::spec_stack_only() && I::spec_stack_only() && J::spec_stack_only() && K::spec_stack_only() && L::spec_stack_only()
    }

    open spec fn spec_heap_floor(&self) -> nat {
        self.0.spec_heap_floor() + self.1.spec_heap_floor() + self.2.spec_heap_floor() + self.3.spec_heap_floor() + self.4.spec_heap_floor() + self.5.spec_heap_floor() + self.6.spec_heap_floor() + self.7.spec_heap_floor() + self.8.spec_heap_floor() + self.9.spec_heap_floor() + self.10.spec_heap_floor() + self.11.spec_heap_floor()
    }

    open spec fn spec_heap_outcome(&self, h: nat) -> bool {
        exists|h0: nat, h1: nat, h2: nat, h3: nat, h4: nat, h5: nat, h6: nat, h7: nat, h8: nat, h9: nat, h10: nat, h11: nat|
            #![trigger self.0.spec_heap_outcome(h0), self.1.spec_heap_outcome(h1), self.2.spec_heap_outcome(h2), self.3.spec_heap_outcome(h3), self.4.spec_heap_outcome(h4), self.5.spec_heap_outcome(h5), self.6.spec_heap_outcome(h6), self.7.spec_heap_outcome(h7), self.8.spec_heap_outcome(h8), self.9.spec_heap_outcome(h9), self.10.spec_heap_outcome(h10), self.11.spec_heap_outcome(h11)]
            self.0.spec_heap_outcome(h0) && self.1.spec_heap_outcome(h1) && self.2.spec_heap_outcome(h2) && self.3.spec_heap_outcome(h3) && self.4.spec_heap_outcome(h4) && self.5.spec_heap_outcome(h5) && self.6.spec_heap_outcome(h6) && self.7.spec_heap_outcome(h7) && self.8.spec_heap_outcome(h8) && self.9.spec_heap_outcome(h9) && self.10.spec_heap_outcome(h10) && self.11.spec_heap_outcome(h11) && h == saturated(h0 + h1 + h2 + h3 + h4 + h5 + h6 + h7 + h8 + h9 + h10 + h11)
    }

    fn is_stack_only() -> (r: bool) {
        A::is_stack_only() && B::is_stack_only() && C::is_stack_only() && D::is_stack_only() && E::is_stack_only() && F::is_stack_only() && G::is_stack_only() && H::is_stack_only() && I::is_stack_only() && J::is_stack_only() && K::is_stack_only() && L::is_stack_only()
    }

    fn heap_bytes(&self) -> (r: usize) {
        let h0 = self.0.heap_bytes();
        let h1 = self.1.heap_bytes();
        let h2 = self.2.heap_bytes();
        let h3 = self.3.heap_bytes();
        let h4 = self.4.heap_bytes();
        let h5 = self.5.heap_bytes();
        let h6 = self.6.heap_bytes();
        let h7 = self.7.heap_bytes();
        let h8 = self.8.heap_bytes();
        let h9 = self.9.heap_bytes();
        let h10 = self.10.heap_bytes();
        let h11 = self.11.heap_bytes();
        let mut r: usize = 0;
        r = r.saturating_add(h0);
        r = r.saturating_add(h1);
        r = r.saturating_add(h2);
        r = r.saturating_add(h3);
        r = r.saturating_add(h4);
        r = r.saturating_add(h5);
        r = r.saturating_add(h6);
        r = r.saturating_add(h7);
        r = r.saturating_add(h8);
        r = r.saturating_add(h9);
        r = r.saturating_add(h10);
        r = r.saturating_add(h11);
        r
    }
}

/// A vector owns its buffer, `capacity` elements' stack portions, and what its elements own
/// (the total saturating at `usize::MAX`).
impl<A: SpaceUsage> SpaceUsage for Vec<A> {
    open spec fn spec_stack_only() -> bool {
        false
    }

    open spec fn spec_heap_floor(&self) -> nat {
        self@.len() * vstd::layout::size_of::<A>() + if A::spec_stack_only() {
            0
        } else {
            heap_floor_sum(self@, self@.len())
        }
    }

    open spec fn spec_heap_outcome(&self, h: nat) -> bool {
        exists|c: nat, hs: Seq<nat>| #[trigger] vec_heap_outcome(self@, c, hs, h)
    }

    fn is_stack_only() -> (r: bool) {
        false
    }

    fn heap_bytes(&self) -> (r: usize)
        ensures
            r >= self.len() * vstd::layout::size_of::<A>(),
            A::spec_stack_only() ==> exists|c: nat|
                #![trigger c * vstd::layout::size_of::<A>()]
                c >= self.len() && c * vstd::layout::size_of::<A>() <= isize::MAX && r == c
                    * vstd::layout::size_of::<A>(),
    {
        proof {
            assert(!Self::spec_stack_only());
        }
        let capacity = crate::internal::vec_capacity(self);
        let element = A::stack_bytes();
        proof {
            assert(self.len() * element <= capacity * element) by (nonlinear_arith)
                requires
                    self.len() <= capacity,
            ;
        }
        let mut result = capacity * element;
        let ghost c = capacity as nat;
        let ghost mut hs: Seq<nat> = Seq::empty();
        proof {
            assert(c >= self.len() && c * vstd::layout::size_of::<A>() <= isize::MAX && result == c
                * vstd::layout::size_of::<A>());
            if A::spec_stack_only() {
                assert(vec_heap_outcome(self@, c, hs, result as nat));
            }
        }
        if !A::is_stack_only() {
            let mut i: usize = 0;
            while i < self.len()
                invariant
                    i <= self.len(),
                    result >= self.len() * element,
                    result >= saturated(self@.len() * vstd::layout::size_of::<A>() + heap_floor_sum(self@, i as nat)),
                    element == vstd::layout::size_of::<A>(),
                    c >= self.len(),
                    c * element <= isize::MAX,
                    hs.len() == i,
                    forall|k: int| 0 <= k < i ==> #[trigger] self@[k].spec_heap_outcome(hs[k]),
                    result == saturated(c * vstd::layout::size_of::<A>() + nat_sum(hs)),
                decreases self.len() - i,
            {
                let h = self[i].heap_bytes();
                proof {
                    assert(heap_floor_sum(self@, (i + 1) as nat) == heap_floor_sum(self@, i as nat)
                        + self@[i as int].spec_heap_floor());
                    let old_hs = hs;
                    hs = hs.push(h as nat);
                    assert(hs.drop_last() =~= old_hs);
                    assert forall|k: int| 0 <= k < i + 1 implies #[trigger] self@[k].spec_heap_outcome(hs[k]) by {
                        if k < i {
                            assert(hs[k] == old_hs[k]);
                        }
                    }
                }
                result = result.saturating_add(h);
                i = i + 1;
            }
            proof {
                assert(vec_heap_outcome(self@, c, hs, result as nat));
            }
        }
        result
    }
}

/// A box owns the total size of what it points to.
impl<A: SpaceUsage> SpaceUsage for Box<A> {
    open spec fn spec_stack_only() -> bool {
        false
    }

    open spec fn spec_heap_floor(&self) -> nat {
        vstd::layout::size_of::<A>() + (**self).spec_heap_floor()
    }

    open spec fn spec_heap_outcome(&self, h: nat) -> bool {
        exists|i: nat|
            #[trigger] (**self).spec_heap_outcome(i) && h == saturated(vstd::layout::size_of::<A>() + i)
    }

    fn is_stack_only() -> (r: bool) {
        false
    }

    fn heap_bytes(&self) -> (r: usize)
        ensures
            r >= vstd::layout::size_of::<A>(),
    {
        let inner: &A = &**self;
        inner.total_bytes()
    }
}


/// A vector of stack-only elements owns, on the heap, its capacity's worth of elements, for a
/// capacity of at least its length within `isize::MAX` bytes.
pub proof fn lemma_vec_heap_outcome_stack_only<A: SpaceUsage>(v: &Vec<A>, h: nat)
    requires
        A::spec_stack_only(),
    ensures
        v.spec_heap_outcome(h) <==> exists|c: nat|
            #![trigger c * vstd::layout::size_of::<A>()]
            c >= v@.len() && c * vstd::layout::size_of::<A>() <= isize::MAX && h == c
                * vstd::layout::size_of::<A>(),
{
    if v.spec_heap_outcome(h) {
        let (c, hs) = choose|c: nat, hs: Seq<nat>| #[trigger] vec_heap_outcome(v@, c, hs, h);
        assert(c >= v@.len() && c * vstd::layout::size_of::<A>() <= isize::MAX && h == c
            * vstd::layout::size_of::<A>());
    }
    if exists|c: nat|
        #![trigger c * vstd::layout::size_of::<A>()]
        c >= v@.len() && c * vstd::layout::size_of::<A>() <= isize::MAX && h == c
            * vstd::layout::size_of::<A>() {
        let c = choose|c: nat|
            #![trigger c * vstd::layout::size_of::<A>()]
            c >= v@.len() && c * vstd::layout::size_of::<A>() <= isize::MAX && h == c
                * vstd::layout::size_of::<A>();
        assert(vec_heap_outcome(v@, c, Seq::<nat>::empty(), h));
    }
}

/// A vector of elements that own heap storage owns its capacity's worth of elements, for a
/// capacity of at least its length within `isize::MAX` bytes, plus what each element owns,
/// each counted once, summed with saturation.
pub proof fn lemma_vec_heap_outcome<A: SpaceUsage>(v: &Vec<A>, h: nat)
    requires
        !A::spec_stack_only(),
    ensures
        v.spec_heap_outcome(h) <==> exists|c: nat, hs: Seq<nat>|
            #![trigger c * vstd::layout::size_of::<A>(), nat_sum(hs)]
            c >= v@.len() && c * vstd::layout::size_of::<A>() <= isize::MAX && hs.len() == v@.len()
                && (forall|i: int| 0 <= i < v@.len() ==> #[trigger] v@[i].spec_heap_outcome(hs[i]))
                && h == saturated(c * vstd::layout::size_of::<A>() + nat_sum(hs)),
{
    if v.spec_heap_outcome(h) {
        let (c, hs) = choose|c: nat, hs: Seq<nat>| #[trigger] vec_heap_outcome(v@, c, hs, h);
        assert(c >= v@.len() && c * vstd::layout::size_of::<A>() <= isize::MAX && hs.len()
            == v@.len() && (forall|i: int| 0 <= i < v@.len() ==> #[trigger] v@[i].spec_heap_outcome(hs[i]))
            && h == saturated(c * vstd::layout::size_of::<A>() + nat_sum(hs)));
    }
    if exists|c: nat, hs: Seq<nat>|
        #![trigger c * vstd::layout::size_of::<A>(), nat_sum(hs)]
        c >= v@.len() && c * vstd::layout::size_of::<A>() <= isize::MAX && hs.len() == v@.len()
            && (forall|i: int| 0 <= i < v@.len() ==> #[trigger] v@[i].spec_heap_outcome(hs[i]))
            && h == saturated(c * vstd::layout::size_of::<A>() + nat_sum(hs)) {
        let (c, hs) = choose|c: nat, hs: Seq<nat>|
            #![trigger c * vstd::layout::size_of::<A>(), nat_sum(hs)]
            c >= v@.len() && c * vstd::layout::size_of::<A>() <= isize::MAX && hs.len() == v@.len()
                && (forall|i: int| 0 <= i < v@.len() ==> #[trigger] v@[i].spec_heap_outcome(hs[i]))
                && h == saturated(c * vstd::layout::size_of::<A>() + nat_sum(hs));
        assert(vec_heap_outcome(v@, c, hs, h));
    }
}

/// A box owns the stack size of what it points to, plus what that owns, summed with
/// saturation.
pub proof fn lemma_box_heap_outcome<A: SpaceUsage>(b: &Box<A>, h: nat)
    ensures
        b.spec_heap_outcome(h) <==> exists|i: nat|
            #[trigger] (**b).spec_heap_outcome(i) && h == saturated(vstd::layout::size_of::<A>() + i),
{
}

/// A tuple of 1 owns what each of its components owns, each counted once, summed with
/// saturation.
pub proof fn lemma_tuple1_heap_outcome<A: SpaceUsage>(t: &(A,), h: nat)
    ensures
        t.spec_heap_outcome(h) <==> exists|h0: nat|
            #![trigger t.0.spec_heap_outcome(h0)]
            t.0.spec_heap_outcome(h0) && h == saturated(h0),
{
}

/// A tuple of 2 owns what each of its components owns, each counted once, summed with
/// saturation.
pub proof fn lemma_tuple2_heap_outcome<A: SpaceUsage, B: SpaceUsage>(t: &(A, B), h: nat)
    ensures
        t.spec_heap_outcome(h) <==> exists|h0: nat, h1: nat|
            #![trigger t.0.spec_heap_outcome(h0), t.1.spec_heap_outcome(h1)]
            t.0.spec_heap_outcome(h0) && t.1.spec_heap_outcome(h1) && h == saturated(h0 + h1),
{
}

/// A tuple of 3 owns what each of its components owns, each counted once, summed with
/// saturation.
pub proof fn lemma_tuple3_heap_outcome<A: SpaceUsage, B: SpaceUsage, C: SpaceUsage>(t: &(A, B, C), h: nat)
    ensures
        t.spec_heap_outcome(h) <==> exists|h0: nat, h1: nat, h2: nat|
            #![trigger t.0.spec_heap_outcome(h0), t.1.spec_heap_outcome(h1), t.2.spec_heap_outcome(h2)]
            t.0.spec_heap_outcome(h0) && t.1.spec_heap_outcome(h1) && t.2.spec_heap_outcome(h2) && h == saturated(h0 + h1 + h2),
{
}

/// A tuple of 4 owns what each of its components owns, each counted once, summed with
/// saturation.
pub proof fn lemma_tuple4_heap_outcome<A: SpaceUsage, B: SpaceUsage, C: SpaceUsage, D: SpaceUsage>(t: &(A, B, C, D), h: nat)
    ensures
        t.spec_heap_outcome(h) <==> exists|h0: nat, h1: nat, h2: nat, h3: nat|
            #![trigger t.0.spec_heap_outcome(h0), t.1.spec_heap_outcome(h1), t.2.spec_heap_outcome(h2), t.3.spec_heap_outcome(h3)]
            t.0.spec_heap_outcome(h0) && t.1.spec_heap_outcome(h1) && t.2.spec_heap_outcome(h2) && t.3.spec_heap_outcome(h3) && h == saturated(h0 + h1 + h2 + h3),
{
}

/// A tuple of 5 owns what each of its components owns, each counted once, summed with
/// saturation.
pub proof fn lemma_tuple5_heap_outcome<A: SpaceUsage, B: SpaceUsage, C: SpaceUsage, D: SpaceUsage, E: SpaceUsage>(t: &(A, B, C, D, E), h: nat)
    ensures
        t.spec_heap_outcome(h) <==> exists|h0: nat, h1: nat, h2: nat, h3: nat, h4: nat|
            #![trigger t.0.spec_heap_outcome(h0), t.1.spec_heap_outcome(h1), t.2.spec_heap_outcome(h2), t.3.spec_heap_outcome(h3), t.4.spec_heap_outcome(h4)]
            t.0.spec_heap_outcome(h0) && t.1.spec_heap_outcome(h1) && t.2.spec_heap_outcome(h2) && t.3.spec_heap_outcome(h3) && t.4.spec_heap_outcome(h4) && h == saturated(h0 + h1 + h2 + h3 + h4),
{
}

/// A tuple of 6 owns what each of its components owns, each counted once, summed with
/// saturation.
pub proof fn lemma_tuple6_heap_outcome<A: SpaceUsage, B: SpaceUsage, C: SpaceUsage, D: SpaceUsage, E: SpaceUsage, F: SpaceUsage>(t: &(A, B, C, D, E, F), h: nat)
    ensures
        t.spec_heap_outcome(h) <==> exists|h0: nat, h1: nat, h2: nat, h3: nat, h4: nat, h5: nat|
            #![trigger t.0.spec_heap_outcome(h0), t.1.spec_heap_outcome(h1), t.2.spec_heap_outcome(h2), t.3.spec_heap_outcome(h3), t.4.spec_heap_outcome(h4), t.5.spec_heap_outcome(h5)]
            t.0.spec_heap_outcome(h0) && t.1.spec_heap_outcome(h1) && t.2.spec_heap_outcome(h2) && t.3.spec_heap_outcome(h3) && t.4.spec_heap_outcome(h4) && t.5.spec_heap_outcome(h5) && h == saturated(h0 + h1 + h2 + h3 + h4 + h5),
{
}

/// A tuple of 7 owns what each of its components owns, each counted once, summed with
/// saturation.
pub proof fn lemma_tuple7_heap_outcome<A: SpaceUsage, B: SpaceUsage, C: SpaceUsage, D: SpaceUsage, E: SpaceUsage, F: SpaceUsage, G: SpaceUsage>(t: &(A, B, C, D, E, F, G), h: nat)
    ensures
        t.spec_heap_outcome(h) <==> exists|h0: nat, h1: nat, h2: nat, h3: nat, h4: nat, h5: nat, h6: nat|
            #![trigger t.0.spec_heap_outcome(h0), t.1.spec_heap_outcome(h1), t.2.spec_heap_outcome(h2), t.3.spec_heap_outcome(h3), t.4.spec_heap_outcome(h4), t.5.spec_heap_outcome(h5), t.6.spec_heap_outcome(h6)]
            t.0.spec_heap_outcome(h0) && t.1.spec_heap_outcome(h1) && t.2.spec_heap_outcome(h2) && t.3.spec_heap_outcome(h3) && t.4.spec_heap_outcome(h4) && t.5.spec_heap_outcome(h5) && t.6.spec_heap_outcome(h6) && h == saturated(h0 + h1 + h2 + h3 + h4 + h5 + h6),
{
}

/// A tuple of 8 owns what each of its components owns, each counted once, summed with
/// saturation.
pub proof fn lemma_tuple8_heap_outcome<A: SpaceUsage, B: SpaceUsage, C: SpaceUsage, D: SpaceUsage, E: SpaceUsage, F: SpaceUsage, G: SpaceUsage, H: SpaceUsage>(t: &(A, B, C, D, E, F, G, H), h: nat)
    ensures
        t.spec_heap_outcome(h) <==> exists|h0: nat, h1: nat, h2: nat, h3: nat, h4: nat, h5: nat, h6: nat, h7: nat|
            #![trigger t.0.spec_heap_outcome(h0), t.1.spec_heap_outcome(h1), t.2.spec_heap_outcome(h2), t.3.spec_heap_outcome(h3), t.4.spec_heap_outcome(h4), t.5.spec_heap_outcome(h5), t.6.spec_heap_outcome(h6), t.7.spec_heap_outcome(h7)]
            t.0.spec_heap_outcome(h0) && t.1.spec_heap_outcome(h1) && t.2.spec_heap_outcome(h2) && t.3.spec_heap_outcome(h3) && t.4.spec_heap_outcome(h4) && t.5.spec_heap_outcome(h5) && t.6.spec_heap_outcome(h6) && t.7.spec_heap_outcome(h7) && h == saturated(h0 + h1 + h2 + h3 + h4 + h5 + h6 + h7),
{
}

/// A tuple of 9 owns what each of its components owns, each counted once, summed with
/// saturation.
pub proof fn lemma_tuple9_heap_outcome<A: SpaceUsage, B: SpaceUsage, C: SpaceUsage, D: SpaceUsage, E: SpaceUsage, F: SpaceUsage, G: SpaceUsage, H: SpaceUsage, I: SpaceUsage>(t: &(A, B, C, D, E, F, G, H, I), h: nat)
    ensures
        t.spec_heap_outcome(h) <==> exists|h0: nat, h1: nat, h2: nat, h3: nat, h4: nat, h5: nat, h6: nat, h7: nat, h8: nat|
            #![trigger t.0.spec_heap_outcome(h0), t.1.spec_heap_outcome(h1), t.2.spec_heap_outcome(h2), t.3.spec_heap_outcome(h3), t.4.spec_heap_outcome(h4), t.5.spec_heap_outcome(h5), t.6.spec_heap_outcome(h6), t.7.spec_heap_outcome(h7), t.8.spec_heap_outcome(h8)]
            t.0.spec_heap_outcome(h0) && t.1.spec_heap_outcome(h1) && t.2.spec_heap_outcome(h2) && t.3.spec_heap_outcome(h3) && t.4.spec_heap_outcome(h4) && t.5.spec_heap_outcome(h5) && t.6.spec_heap_outcome(h6) && t.7.spec_heap_outcome(h7) && t.8.spec_heap_outcome(h8) && h == saturated(h0 + h1 + h2 + h3 + h4 + h5 + h6 + h7 + h8),
{
}

/// A tuple of 10 owns what each of its components owns, each counted once, summed with
/// saturation.
pub proof fn lemma_tuple10_heap_outcome<A: SpaceUsage, B: SpaceUsage, C: SpaceUsage, D: SpaceUsage, E: SpaceUsage, F: SpaceUsage, G: SpaceUsage, H: SpaceUsage, I: SpaceUsage, J: SpaceUsage>(t: &(A, B, C, D, E, F, G, H, I, J), h: nat)
    ensures
        t.spec_heap_outcome(h) <==> exists|h0: nat, h1: nat, h2: nat, h3: nat, h4: nat, h5: nat, h6: nat, h7: nat, h8: nat, h9: nat|
            #![trigger t.0.spec_heap_outcome(h0), t.1.spec_heap_outcome(h1), t.2.spec_heap_outcome(h2), t.3.spec_heap_outcome(h3), t.4.spec_heap_outcome(h4), t.5.spec_heap_outcome(h5), t.6.spec_heap_outcome(h6), t.7.spec_heap_outcome(h7), t.8.spec_heap_outcome(h8), t.9.spec_heap_outcome(h9)]
            t.0.spec_heap_outcome(h0) && t.1.spec_heap_outcome(h1) && t.2.spec_heap_outcome(h2) && t.3.spec_heap_outcome(h3) && t.4.spec_heap_outcome(h4) && t.5.spec_heap_outcome(h5) && t.6.spec_heap_outcome(h6) && t.7.spec_heap_outcome(h7) && t.8.spec_heap_outcome(h8) && t.9.spec_heap_outcome(h9) && h == saturated(h0 + h1 + h2 + h3 + h4 + h5 + h6 + h7 + h8 + h9),
{
}

/// A tuple of 11 owns what each of its components owns, each counted once, summed with
/// saturation.
pub proof fn lemma_tuple11_heap_outcome<A: SpaceUsage, B: SpaceUsage, C: SpaceUsage, D: SpaceUsage, E: SpaceUsage, F: SpaceUsage, G: SpaceUsage, H: SpaceUsage, I: SpaceUsage, J: SpaceUsage, K: SpaceUsage>(t: &(A, B, C, D, E, F, G, H, I, J, K), h: nat)
    ensures
        t.spec_heap_outcome(h) <==> exists|h0: nat, h1: nat, h2: nat, h3: nat, h4: nat, h5: nat, h6: nat, h7: nat, h8: nat, h9: nat, h10: nat|
            #![trigger t.0.spec_heap_outcome(h0), t.1.spec_heap_outcome(h1), t.2.spec_heap_outcome(h2), t.3.spec_heap_outcome(h3), t.4.spec_heap_outcome(h4), t.5.spec_heap_outcome(h5), t.6.spec_heap_outcome(h6), t.7.spec_heap_outcome(h7), t.8.spec_heap_outcome(h8), t.9.spec_heap_outcome(h9), t.10.spec_heap_outcome(h10)]
            t.0.spec_heap_outcome(h0) && t.1.spec_heap_outcome(h1) && t.2.spec_heap_outcome(h2) && t.3.spec_heap_outcome(h3) && t.4.spec_heap_outcome(h4) && t.5.spec_heap_outcome(h5) && t.6.spec_heap_outcome(h6) && t.7.spec_heap_outcome(h7) && t.8.spec_heap_outcome(h8) && t.9.spec_heap_outcome(h9) && t.10.spec_heap_outcome(h10) && h == saturated(h0 + h1 + h2 + h3 + h4 + h5 + h6 + h7 + h8 + h9 + h10),
{
}

/// A tuple of 12 owns what each of its components owns, each counted once, summed with
/// saturation.
pub proof fn lemma_tuple12_heap_outcome<A: SpaceUsage, B: SpaceUsage, C: SpaceUsage, D: SpaceUsage, E: SpaceUsage, F: SpaceUsage, G: SpaceUsage, H: SpaceUsage, I: SpaceUsage, J: SpaceUsage, K: SpaceUsage, L: SpaceUsage>(t: &(A, B, C, D, E, F, G, H, I, J, K, L), h: nat)
    ensures
        t.spec_heap_outcome(h) <==> exists|h0: nat, h1: nat, h2: nat, h3: nat, h4: nat, h5: nat, h6: nat, h7: nat, h8: nat, h9: nat, h10: nat, h11: nat|
            #![trigger t.0.spec_heap_outcome(h0), t.1.spec_heap_outcome(h1), t.2.spec_heap_outcome(h2), t.3.spec_heap_outcome(h3), t.4.spec_heap_outcome(h4), t.5.spec_heap_outcome(h5), t.6.spec_heap_outcome(h6), t.7.spec_heap_outcome(h7), t.8.spec_heap_outcome(h8), t.9.spec_heap_outcome(h9), t.10.spec_heap_outcome(h10), t.11.spec_heap_outcome(h11)]
            t.0.spec_heap_outcome(h0) && t.1.spec_heap_outcome(h1) && t.2.spec_heap_outcome(h2) && t.3.spec_heap_outcome(h3) && t.4.spec_heap_outcome(h4) && t.5.spec_heap_outcome(h5) && t.6.spec_heap_outcome(h6) && t.7.spec_heap_outcome(h7) && t.8.spec_heap_outcome(h8) && t.9.spec_heap_outcome(h9) && t.10.spec_heap_outcome(h10) && t.11.spec_heap_outcome(h11) && h == saturated(h0 + h1 + h2 + h3 + h4 + h5 + h6 + h7 + h8 + h9 + h10 + h11),
{
}

} // verus!
