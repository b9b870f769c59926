//! Contiguous windows (shingles) over a token sequence.
use vstd::prelude::*;

verus! {

/// Hands out every contiguous window of `window_size` tokens, in order.
pub struct ShingleIter<'a, T> {
    tokens: &'a [T],
    window_size: usize,
    position: usize,
}

impl<'a, T> ShingleIter<'a, T> {
    /// The tokens windowed over.
    pub closed spec fn spec_tokens(&self) -> Seq<T> {
        self.tokens@
    }

    /// The window size.
    pub closed spec fn spec_window_size(&self) -> nat {
        self.window_size as nat
    }

    /// Where the next window starts.
    pub closed spec fn spec_position(&self) -> nat {
        self.position as nat
    }

    /// The next window starts within the tokens, and windows are not empty.
    pub closed spec fn wf(&self) -> bool {
        self.position <= self.tokens@.len() && self.window_size >= 1
    }

    /// Creates an iterator over the windows of `window_size` tokens.
    pub fn new(tokens: &'a [T], window_size: usize) -> (r: Self)
        requires
            window_size >= 1,
        ensures
            r.wf(),
            r.spec_tokens() == tokens@,
            r.spec_window_size() == window_size,
            r.spec_position() == 0,
    {
        ShingleIter { tokens, window_size, position: 0 }
    }

    /// Whether a window is left.
    pub fn next_fits(&self) -> (r: bool)
        requires
            self.wf(),
        ensures
            r <==> self.spec_position() + self.spec_window_size() <= self.spec_tokens().len(),
    {
        self.tokens.len() - self.position >= self.window_size
    }

    /// Hands out the next window, if the tokens hold one.
    pub fn next(&mut self) -> (r: Option<&'a [T]>)
        requires
            old(self).wf(),
        ensures
            final(self).wf(),
            final(self).spec_tokens() == old(self).spec_tokens(),
            final(self).spec_window_size() == old(self).spec_window_size(),
            old(self).spec_position() + old(self).spec_window_size() <= old(self).spec_tokens().len() ==> {
                &&& r matches Some(w) && w@ == old(self).spec_tokens().subrange(
                    old(self).spec_position() as int,
                    (old(self).spec_position() + old(self).spec_window_size()) as int,
                )
                &&& final(self).spec_position() == old(self).spec_position() + 1
            },
            old(self).spec_position() + old(self).spec_window_size() > old(self).spec_tokens().len() ==> r is None
                && final(self).spec_position() == old(self).spec_position(),
    {
        if self.tokens.len() - self.position < self.window_size {
            return None;
        }
        let window = &self.tokens[self.position..self.position + self.window_size];
        self.position = self.position + 1;
        Some(window)
    }
}

} // verus!
