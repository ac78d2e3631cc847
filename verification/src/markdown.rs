//! A small builder for markdown text.

use vstd::prelude::*;

verus! {

/// Relies on `String::push_str`: appends the given text to the string.
pub assume_specification[ String::push_str ](s: &mut String, other: &str)
    ensures
        final(s)@ == old(s)@ + other@,
;

/// Relies on `String::reserve`: only capacity changes, never the text.
pub assume_specification[ String::reserve ](s: &mut String, additional: usize)
    ensures
        final(s)@ == old(s)@,
;

/// `n` repetitions of the heading marker `#`.
pub open spec fn hashes(n: int) -> Seq<char> {
    Seq::new(n as nat, |i: int| '#')
}

/// A helper to build markdown text by appending pieces.
pub struct MarkdownBuilder {
    inner: String,
}

impl View for MarkdownBuilder {
    type V = Seq<char>;

    closed spec fn view(&self) -> Seq<char> {
        self.inner@
    }
}

impl Default for MarkdownBuilder {
    /// An empty builder.
    fn default() -> (r: Self)
        ensures
            r@ == Seq::<char>::empty(),
    {
        MarkdownBuilder { inner: String::new() }
    }
}

impl MarkdownBuilder {
    /// Reserve more space to speculatively avoid frequent allocations.
    pub fn reserve(&mut self, size: usize)
        ensures
            final(self)@ == old(self)@,
    {
        self.inner.reserve(size);
    }

    /// Append text to the markdown.
    pub fn append(&mut self, text: &str)
        ensures
            final(self)@ == old(self)@ + text@,
    {
        self.inner.push_str(text);
    }

    /// Append text to the markdown, followed by a line break (two spaces
    /// and a newline).
    pub fn appendln(&mut self, text: &str)
        ensures
            final(self)@ == old(self)@ + text@ + seq![' ', ' ', '\n'],
    {
        self.reserve(text.len());
        self.append(text);
        self.newline();
        proof {
            assert(old(self)@ + text@ + seq![' ', ' ', '\n'] =~= (old(self)@ + text@) + seq![
                ' ',
                ' ',
                '\n',
            ]);
        }
    }

    /// Append a markdown line break.
    pub fn newline(&mut self)
        ensures
            final(self)@ == old(self)@ + seq![' ', ' ', '\n'],
    {
        self.reserve(3);
        self.append("  \n");
        proof {
            reveal_strlit("  \n");
            assert("  \n"@ =~= seq![' ', ' ', '\n']);
        }
    }

    /// Append a heading marker: `level` `#` characters and a space.
    pub fn heading(&mut self, level: usize)
        ensures
            final(self)@ == old(self)@ + hashes(level as int) + seq![' '],
    {
        self.reserve(level);
        let mut i: usize = 0;
        proof {
            assert(self@ =~= old(self)@ + hashes(0));
        }
        while i < level
            invariant
                0 <= i <= level,
                self@ == old(self)@ + hashes(i as int),
            decreases level - i,
        {
            self.append("#");
            proof {
                reveal_strlit("#");
                assert("#"@ =~= seq!['#']);
                assert((old(self)@ + hashes(i as int)) + seq!['#'] =~= old(self)@ + hashes(
                    i + 1,
                ));
            }
            i = i + 1;
        }
        self.append(" ");
        proof {
            reveal_strlit(" ");
            assert(" "@ =~= seq![' ']);
            assert((old(self)@ + hashes(level as int)) + seq![' '] =~= old(self)@ + hashes(
                level as int,
            ) + seq![' ']);
        }
    }

    /// Append a link: `[text](link)`.
    pub fn link(&mut self, text: &str, link: &str)
        ensures
            final(self)@ == old(self)@ + seq!['['] + text@ + seq![']', '('] + link@ + seq![')'],
    {
        match text.len().checked_add(link.len()) {
            Some(s) => match s.checked_add(4) {
                Some(t) => self.reserve(t),
                None => {
                },
            },
            None => {
            },
        }
        self.append("[");
        self.append(text);
        self.append("](");
        self.append(link);
        self.append(")");
        proof {
            reveal_strlit("[");
            reveal_strlit("](");
            reveal_strlit(")");
            assert("["@ =~= seq!['[']);
            assert("]("@ =~= seq![']', '(']);
            assert(")"@ =~= seq![')']);
            assert(((((old(self)@ + seq!['[']) + text@) + seq![']', '(']) + link@) + seq![')']
                =~= old(self)@ + seq!['['] + text@ + seq![']', '('] + link@ + seq![')']);
        }
    }

    /// Return the markdown content, dropping the builder.
    pub fn build(self) -> (r: String)
        ensures
            r@ == self@,
    {
        self.inner
    }
}

} // verus!
