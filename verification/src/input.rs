use vstd::prelude::*;
use vstd::string::StrSliceExecFns;

verus! {

/// Position-tracking reader over the source text: owns the text, a current
/// character offset, and the cached character at that offset.
///
/// Centralizing the offset arithmetic here keeps the grammar logic free of
/// any character-boundary bookkeeping.
pub struct Input {
    source: String,
    cur: Option<char>,
    pos: usize,
}

impl Input {
    /// The characters of the owned source text.
    pub closed spec fn src(self) -> Seq<char> {
        self.source@
    }

    /// The current character offset, counted in characters.
    pub closed spec fn at(self) -> int {
        self.pos as int
    }

    /// The offset never passes one-past-the-end, and the cached character
    /// is the character of the text at the offset.
    pub closed spec fn wf(self) -> bool {
        &&& self.pos <= self.source@.len()
        &&& self.cur == (if (self.pos as int) < self.source@.len() {
            Some(self.source@[self.pos as int])
        } else {
            None::<char>
        })
    }

    /// The character a well-formed reader currently looks at, if any.
    pub open spec fn spec_cur(self) -> Option<char> {
        if self.at() < self.src().len() {
            Some(self.src()[self.at()])
        } else {
            None
        }
    }

    /// A well-formed reader's offset lies between the start of the text and
    /// one-past-its-end.
    pub broadcast proof fn lemma_wf_bounds(self)
        requires
            #[trigger] self.wf(),
        ensures
            0 <= self.at() <= self.src().len(),
    {
    }

    pub fn new(source: String) -> (r: Self)
        ensures
            r.wf(),
            r.src() == source@,
            r.at() == 0,
    {
        let first_char = if source.as_str().unicode_len() > 0 {
            Some(source.as_str().get_char(0))
        } else {
            None
        };
        Input { source, cur: first_char, pos: 0 }
    }

    /// Returns the character at the current offset, or `None` at end of
    /// input. Pure read, no side effect.
    pub fn cur(&self) -> (r: Option<char>)
        requires
            self.wf(),
        ensures
            r == self.spec_cur(),
    {
        self.cur
    }

    /// Moves the offset forward by one character and refreshes the cached
    /// current character. Must not be called at end of input.
    pub fn bump(&mut self)
        requires
            old(self).wf(),
            old(self).at() < old(self).src().len(),
        ensures
            final(self).wf(),
            final(self).src() == old(self).src(),
            final(self).at() == old(self).at() + 1,
    {
        let len = self.source.as_str().unicode_len();
        self.pos = self.pos + 1;
        self.cur = if self.pos < len {
            Some(self.source.as_str().get_char(self.pos))
        } else {
            None
        };
    }
}

} // verus!
