//! The position state of a lexer over source text, as code generated for a
//! token enum drives it: where the current token starts and how far it has
//! read.
use vstd::prelude::*;
use vstd::string::StringSliceAdditionalSpecFns;

verus! {

/// A lexer over `source`: the current token covers the bytes from
/// `token_start` up to `token_end`.
pub struct Lexer<'source> {
    source: &'source str,
    token_start: usize,
    token_end: usize,
}

impl<'source> Lexer<'source> {
    /// The source text.
    pub closed spec fn spec_source(&self) -> &'source str {
        self.source
    }

    /// Where the current token starts.
    pub closed spec fn spec_start(&self) -> usize {
        self.token_start
    }

    /// How far the current token reaches.
    pub closed spec fn spec_end(&self) -> usize {
        self.token_end
    }

    /// The current token lies within the source.
    pub closed spec fn wf(&self) -> bool {
        self.token_start <= self.token_end <= self.source.spec_bytes().len()
    }

    /// A lexer at the start of `source`.
    pub fn new(source: &'source str) -> (l: Self)
        ensures
            l.wf(),
            l.spec_source() == source,
            l.spec_start() == 0,
            l.spec_end() == 0,
    {
        Self { source, token_start: 0, token_end: 0 }
    }

    /// Reads `size` more bytes into the current token.
    pub fn bump_unchecked(&mut self, size: usize)
        requires
            old(self).wf(),
            old(self).spec_end() + size <= old(self).spec_source().spec_bytes().len(),
        ensures
            final(self).wf(),
            final(self).spec_source() == old(self).spec_source(),
            final(self).spec_start() == old(self).spec_start(),
            final(self).spec_end() == old(self).spec_end() + size,
    {
        let length = self.source.as_bytes().len();
        assert(self.token_end + size <= length);
        self.token_end = self.token_end + size;
    }

    /// How far the current token reaches.
    pub fn current_end(&self) -> (r: usize)
        ensures
            r == self.spec_end(),
    {
        self.token_end
    }

    /// Makes the current token reach up to `end`.
    pub fn set_end_unchecked(&mut self, end: usize)
        requires
            old(self).wf(),
            old(self).spec_start() <= end <= old(self).spec_source().spec_bytes().len(),
        ensures
            final(self).wf(),
            final(self).spec_source() == old(self).spec_source(),
            final(self).spec_start() == old(self).spec_start(),
            final(self).spec_end() == end,
    {
        self.token_end = end;
    }

    /// Skips what was read: the next token starts where this one ends.
    pub fn trivia(&mut self)
        requires
            old(self).wf(),
        ensures
            final(self).wf(),
            final(self).spec_source() == old(self).spec_source(),
            final(self).spec_start() == old(self).spec_end(),
            final(self).spec_end() == old(self).spec_end(),
    {
        self.token_start = self.token_end;
    }
}

} // verus!
