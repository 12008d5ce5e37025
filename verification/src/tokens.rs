//! Cutting a text into the pieces that lie between separators.

use vstd::prelude::*;
use vstd::slice::slice_subrange;

verus! {

/// The bytes at which a text is cut.
#[derive(Clone, Copy, Debug)]
pub enum Separator {
    /// The line feed that ends a record.
    Newline,
    /// A space, a tab, a line feed, a vertical tab, a form feed or a
    /// carriage return.
    Whitespace,
    /// The point between the whole part of a number and its fraction.
    Point,
}

impl Separator {
    /// `b` is a byte at which this separator cuts.
    pub open spec fn matches(self, b: u8) -> bool {
        match self {
            Separator::Newline => b == 0x0A,
            Separator::Whitespace => b == 0x20 || (0x09 <= b && b <= 0x0D),
            Separator::Point => b == 0x2E,
        }
    }

    /// Whether `b` is this separator.
    pub fn test(self, b: u8) -> (hit: bool)
        ensures
            hit == self.matches(b),
    {
        match self {
            Separator::Newline => b == 0x0A,
            Separator::Whitespace => b == 0x20 || (0x09 <= b && b <= 0x0D),
            Separator::Point => b == 0x2E,
        }
    }
}

/// No byte of `s` is the separator.
pub open spec fn free_of(s: Seq<u8>, sep: Separator) -> bool {
    forall|i: int| 0 <= i < s.len() ==> !sep.matches(#[trigger] s[i])
}

/// The number of bytes of `s` that stand before its first separator; the
/// length of `s` where it holds none.
pub open spec fn prefix_len(s: Seq<u8>, sep: Separator) -> nat
    decreases s.len(),
{
    if s.len() == 0 || sep.matches(s[0]) {
        0
    } else {
        1 + prefix_len(s.skip(1), sep)
    }
}

/// What follows the first separator of `s`; nothing where it holds none.
pub open spec fn after_prefix(s: Seq<u8>, sep: Separator) -> Seq<u8> {
    let n = prefix_len(s, sep) as int;
    if n < s.len() {
        s.skip(n + 1)
    } else {
        Seq::empty()
    }
}

/// The pieces of `s` between separators, in order, the empty ones left out.
pub open spec fn tokens(s: Seq<u8>, sep: Separator) -> Seq<Seq<u8>>
    decreases s.len(),
{
    if s.len() == 0 {
        Seq::empty()
    } else {
        let n = prefix_len(s, sep) as int;
        let rest = after_prefix(s, sep);
        if n == 0 {
            tokens(rest, sep)
        } else {
            seq![s.take(n)] + tokens(rest, sep)
        }
    }
}

/// `s` is empty or ends in a separator, so that a text put behind it begins
/// a piece of its own.
pub open spec fn closed_by(s: Seq<u8>, sep: Separator) -> bool {
    s.len() == 0 || sep.matches(s.last())
}

/// The prefix before the first separator is what its name says.
pub proof fn lemma_prefix_len_is_first(s: Seq<u8>, sep: Separator)
    ensures
        prefix_len(s, sep) <= s.len(),
        free_of(s.take(prefix_len(s, sep) as int), sep),
        prefix_len(s, sep) < s.len() ==> sep.matches(s[prefix_len(s, sep) as int]),
    decreases s.len(),
{
    if s.len() == 0 || sep.matches(s[0]) {
    } else {
        let tail = s.skip(1);
        lemma_prefix_len_is_first(tail, sep);
        let n = prefix_len(s, sep) as int;
        assert forall|i: int| 0 <= i < n implies !sep.matches(#[trigger] s.take(n)[i]) by {
            if i > 0 {
                assert(s.take(n)[i] == tail.take(n - 1)[i - 1]);
            }
        }
    }
}

/// A position that has no separator before it and one at it, or is the end
/// of `s`, is where the first piece ends.
pub proof fn lemma_prefix_len_unique(s: Seq<u8>, sep: Separator, n: int)
    requires
        0 <= n <= s.len(),
        free_of(s.take(n), sep),
        n < s.len() ==> sep.matches(s[n]),
    ensures
        prefix_len(s, sep) == n,
    decreases n,
{
    if n == 0 {
    } else {
        assert(s.take(n)[0] == s[0]);
        let tail = s.skip(1);
        assert forall|i: int| 0 <= i < n - 1 implies !sep.matches(#[trigger] tail.take(n - 1)[i]) by {
            assert(tail.take(n - 1)[i] == s.take(n)[i + 1]);
        }
        lemma_prefix_len_unique(tail, sep, n - 1);
    }
}

/// A text without separators is one piece.
pub proof fn lemma_tokens_single(a: Seq<u8>, sep: Separator)
    requires
        a.len() > 0,
        free_of(a, sep),
    ensures
        tokens(a, sep) == seq![a],
{
    assert(a.take(a.len() as int) == a);
    lemma_prefix_len_unique(a, sep, a.len() as int);
    assert(tokens(Seq::<u8>::empty(), sep) == Seq::<Seq<u8>>::empty());
    assert(seq![a] + Seq::<Seq<u8>>::empty() == seq![a]);
}

/// A piece, a separator and more text: the piece comes first, then the
/// pieces of the rest.
pub proof fn lemma_tokens_cons(a: Seq<u8>, b: u8, rest: Seq<u8>, sep: Separator)
    requires
        a.len() > 0,
        free_of(a, sep),
        sep.matches(b),
    ensures
        tokens(a + seq![b] + rest, sep) == seq![a] + tokens(rest, sep),
{
    let s = a + seq![b] + rest;
    let n = a.len() as int;
    assert(s.take(n) == a);
    assert(s[n] == b);
    lemma_prefix_len_unique(s, sep, n);
    assert(s.skip(n + 1) == rest);
}

/// Behind a text that is closed, a second text is cut as if it stood alone.
pub proof fn lemma_tokens_append(a: Seq<u8>, b: Seq<u8>, sep: Separator)
    requires
        closed_by(a, sep),
    ensures
        tokens(a + b, sep) == tokens(a, sep) + tokens(b, sep),
    decreases a.len(),
{
    if a.len() == 0 {
        assert(a + b == b);
        assert(tokens(a, sep) == Seq::<Seq<u8>>::empty());
        assert(Seq::<Seq<u8>>::empty() + tokens(b, sep) == tokens(b, sep));
    } else {
        let s = a + b;
        let n = prefix_len(a, sep) as int;
        lemma_prefix_len_is_first(a, sep);
        if n == a.len() {
            assert(a.take(n)[n - 1] == a.last());
            assert(false);
        }
        assert(s.take(n) == a.take(n));
        assert(s[n] == a[n]);
        lemma_prefix_len_unique(s, sep, n);
        let a_rest = a.skip(n + 1);
        assert(s.skip(n + 1) == a_rest + b);
        if a_rest.len() > 0 {
            assert(a_rest.last() == a.last());
        }
        lemma_tokens_append(a_rest, b, sep);
        if n > 0 {
            assert(seq![a.take(n)] + (tokens(a_rest, sep) + tokens(b, sep)) == (seq![a.take(n)]
                + tokens(a_rest, sep)) + tokens(b, sep));
        }
    }
}

/// Where each piece of a text lies: `pieces[i]` is the half-open range of
/// the `i`-th piece of `s`.
pub open spec fn locates(pieces: Seq<(usize, usize)>, s: Seq<u8>, sep: Separator) -> bool {
    &&& pieces.len() == tokens(s, sep).len()
    &&& forall|i: int|
        0 <= i < pieces.len() ==> {
            &&& (#[trigger] pieces[i]).0 <= pieces[i].1 <= s.len()
            &&& s.subrange(pieces[i].0 as int, pieces[i].1 as int) == tokens(s, sep)[i]
        }
}

/// Finds the pieces of `s` between separators.
pub fn split(s: &[u8], sep: Separator) -> (pieces: Vec<(usize, usize)>)
    ensures
        locates(pieces@, s@, sep),
{
    let mut pieces: Vec<(usize, usize)> = Vec::new();
    let ghost mut done: Seq<Seq<u8>> = Seq::empty();
    let mut i: usize = 0;
    proof {
        assert(s@.skip(0) == s@);
        assert(done + tokens(s@, sep) == tokens(s@, sep));
    }
    while i < s.len()
        invariant
            i <= s.len(),
            tokens(s@, sep) == done + tokens(s@.skip(i as int), sep),
            pieces.len() == done.len(),
            forall|k: int|
                0 <= k < pieces.len() ==> {
                    &&& (#[trigger] pieces[k]).0 <= pieces[k].1 <= s.len()
                    &&& s@.subrange(pieces[k].0 as int, pieces[k].1 as int) == done[k]
                },
        decreases s.len() - i,
    {
        let ghost here = s@.skip(i as int);
        let mut j: usize = i;
        while j < s.len() && !sep.test(s[j])
            invariant
                i <= j <= s.len(),
                free_of(s@.subrange(i as int, j as int), sep),
            decreases s.len() - j,
        {
            proof {
                let grown = s@.subrange(i as int, j + 1);
                assert forall|k: int| 0 <= k < grown.len() implies !sep.matches(
                    #[trigger] grown[k],
                ) by {
                    if k < j - i {
                        assert(grown[k] == s@.subrange(i as int, j as int)[k]);
                    }
                }
            }
            j = j + 1;
        }
        proof {
            let n = j - i;
            assert(here.take(n) == s@.subrange(i as int, j as int));
            if n < here.len() {
                assert(here[n] == s@[j as int]);
            }
            lemma_prefix_len_unique(here, sep, n);
            if j < s.len() {
                assert(after_prefix(here, sep) == s@.skip(j + 1));
            } else {
                assert(after_prefix(here, sep) == s@.skip(s.len() as int));
            }
        }
        if j > i {
            pieces.push((i, j));
            proof {
                let piece = s@.subrange(i as int, j as int);
                assert(done + (seq![piece] + tokens(after_prefix(here, sep), sep)) == done.push(
                    piece,
                ) + tokens(after_prefix(here, sep), sep));
                done = done.push(piece);
            }
        }
        if j < s.len() {
            i = j + 1;
        } else {
            i = j;
        }
    }
    proof {
        assert(s@.skip(i as int).len() == 0);
        assert(done + Seq::<Seq<u8>>::empty() == done);
    }
    pieces
}

/// The piece of `s` that `piece` locates.
pub fn slice_of<'a>(s: &'a [u8], piece: (usize, usize)) -> (part: &'a [u8])
    requires
        piece.0 <= piece.1 <= s.len(),
    ensures
        part@ == s@.subrange(piece.0 as int, piece.1 as int),
{
    slice_subrange(s, piece.0, piece.1)
}

} // verus!
