//! Windows over a sequence that wrap back to its beginning.
use vstd::prelude::*;

verus! {

/// Windows of a fixed size over a sequence, wrapping at its end.
///
/// Before any `advance` the window starts at the first element. Each
/// `advance` moves the start one element further; once the start has gone
/// round the whole sequence and come back to the first element, one more
/// `advance` ends the iteration.
pub struct WrappingWindowsIterator<T> {
    elements: Vec<T>,
    block_size: usize,
    position: usize,
}

/// The window of `size` elements of `s` starting at `start`, wrapping at the end.
pub open spec fn wrapping_window<T>(s: Seq<T>, start: int, size: int) -> Seq<T> {
    Seq::new(size as nat, |j: int| s[(start + j) % (s.len() as int)])
}

impl<T: Copy> WrappingWindowsIterator<T> {
    /// The sequence iterated on.
    pub closed spec fn items(&self) -> Seq<T> {
        self.elements@
    }

    /// The number of elements in each window.
    pub closed spec fn size(&self) -> nat {
        self.block_size as nat
    }

    /// How many times `advance` moved the window (capped one past the end).
    pub closed spec fn pos(&self) -> nat {
        self.position as nat
    }

    pub closed spec fn wf(&self) -> bool {
        &&& 1 <= self.block_size <= self.elements.len() < usize::MAX
        &&& self.position <= self.elements.len() + 1
    }

    /// Moves to the next window.
    pub fn advance(&mut self)
        requires
            old(self).wf(),
        ensures
            final(self).wf(),
            final(self).items() == old(self).items(),
            final(self).size() == old(self).size(),
            final(self).pos() == if old(self).pos() <= old(self).items().len() {
                old(self).pos() + 1
            } else {
                old(self).pos()
            },
    {
        if self.position <= self.elements.len() {
            self.position = self.position + 1;
        }
    }

    /// The current window, or `None` once the iteration is over.
    pub fn get(&self) -> (r: Option<Vec<T>>)
        requires
            self.wf(),
        ensures
            self.pos() <= self.items().len() <==> r is Some,
            r matches Some(w) ==> w@ == wrapping_window(
                self.items(),
                self.pos() as int,
                self.size() as int,
            ),
    {
        let n = self.elements.len();
        if self.position > n {
            return None;
        }
        let mut window: Vec<T> = Vec::new();
        let mut j: usize = 0;
        while j < self.block_size
            invariant
                self.wf(),
                n == self.elements.len(),
                self.position <= n,
                j <= self.block_size,
                window@ == wrapping_window(self.elements@, self.position as int, j as int),
            decreases self.block_size - j,
        {
            let a: usize = self.position % n;
            let k: usize = if j < n - a { a + j } else { j - (n - a) };
            assert(k as int == (self.position + j) % (n as int)) by {
                let (p, jj, nn) = (self.position as int, j as int, n as int);
                vstd::arithmetic::div_mod::lemma_add_mod_noop(p, jj, nn);
                vstd::arithmetic::div_mod::lemma_small_mod(j as nat, n as nat);
                if j < n - a {
                    vstd::arithmetic::div_mod::lemma_small_mod((a + j) as nat, n as nat);
                } else {
                    vstd::arithmetic::div_mod::lemma_mod_multiples_vanish(1, a + jj - nn, nn);
                    vstd::arithmetic::div_mod::lemma_small_mod((a + jj - nn) as nat, n as nat);
                }
            }
            window.push(self.elements[k]);
            j = j + 1;
            assert(window@ =~= wrapping_window(self.elements@, self.position as int, j as int));
        }
        Some(window)
    }
}

/// Windows of `block_size` elements over `slice`, wrapping back to its beginning.
pub fn wrapping_windows_fn<T: Copy>(slice: &[T], block_size: usize) -> (r: WrappingWindowsIterator<T>)
    requires
        1 <= block_size <= slice@.len() < usize::MAX,
    ensures
        r.wf(),
        r.items() == slice@,
        r.size() == block_size,
        r.pos() == 0,
{
    let mut elements: Vec<T> = Vec::new();
    let mut i: usize = 0;
    while i < slice.len()
        invariant
            i <= slice@.len(),
            elements@ == slice@.subrange(0, i as int),
        decreases slice@.len() - i,
    {
        elements.push(slice[i]);
        i = i + 1;
        assert(elements@ =~= slice@.subrange(0, i as int));
    }
    assert(elements@ =~= slice@);
    WrappingWindowsIterator { elements, block_size, position: 0 }
}

/// Sequences that can be walked by wrapping windows.
pub trait GrouilleSlice {
    type Item: Copy;

    spec fn items(&self) -> Seq<Self::Item>;

    /// Windows of `block_size` elements, wrapping back to the beginning.
    fn wrapping_windows(&self, block_size: usize) -> (r: WrappingWindowsIterator<Self::Item>)
        requires
            1 <= block_size <= self.items().len() < usize::MAX,
        ensures
            r.wf(),
            r.items() == self.items(),
            r.size() == block_size,
            r.pos() == 0,
    ;
}

impl<T: Copy> GrouilleSlice for Vec<T> {
    type Item = T;

    open spec fn items(&self) -> Seq<T> {
        self@
    }

    fn wrapping_windows(&self, block_size: usize) -> (r: WrappingWindowsIterator<T>) {
        wrapping_windows_fn(self.as_slice(), block_size)
    }
}

} // verus!
