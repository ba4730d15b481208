//! The layered character pipeline and the tokenizer built on top of it.
//!
//! Four stages, each pulling from the previous:
//! 1. [`CharsAndLocation`] canonicalizes newlines and assigns locations.
//! 2. [`SkipBackslashNewline`] deletes backslash-newline continuations.
//! 3. [`ReplaceComments`] replaces each comment with one sentinel unit.
//! 4. [`Lexer`] groups characters into classified tokens.
//!
//! Every stage is modelled by a spec function from the remaining raw
//! characters to the sequence of (character, location) pairs — or tokens —
//! it will hand out; `next` on each stage is proved to pop exactly the head
//! of that sequence.

use vstd::prelude::*;

use crate::token::{Float, Integer, Location, PreprocessorError, Punct};
use vstd::std_specs::iter::IteratorSpec;

verus! {

/// A character paired with the location it was read at.
pub type CharAndLocation = (char, Location);

/// The location of the first character of the input.
pub open spec fn start_location() -> Location {
    Location { line: 1, pos: 0 }
}

/// `CRLF` and `LFCR` both collapse to a single logical newline.
pub open spec fn is_newline_pair(a: char, b: char) -> bool {
    (a == '\n' && b == '\r') || (a == '\r' && b == '\n')
}

/// Phases 4 and 5 of compilation as a function: the sequence of
/// (character, location) pairs produced from raw characters `s` when the
/// next character would be read at `loc`.  Every `CRLF`/`LFCR` pair and
/// every lone `CR` or `LF` becomes exactly one `'\n'`; the line counter
/// increments by one and the column resets to zero on each of them.
pub open spec fn normalize(s: Seq<char>, loc: Location) -> Seq<CharAndLocation>
    decreases s.len(),
{
    if s.len() <= 0 {
        Seq::empty()
    } else if s[0] == '\n' || s[0] == '\r' {
        let step: int = if s.len() >= 2 && is_newline_pair(s[0], s[1]) {
            2
        } else {
            1
        };
        seq![('\n', loc)] + normalize(
            s.skip(step),
            Location { line: (loc.line + 1) as u32, pos: 0 },
        )
    } else {
        seq![(s[0], loc)] + normalize(
            s.skip(1),
            Location { line: loc.line, pos: (loc.pos + 1) as u32 },
        )
    }
}

/// Largest input length the pipeline accepts: keeps the 32-bit line and
/// column counters free of overflow.
pub open spec fn max_input_len() -> int {
    0xFFFF_FFFE
}

/// Collects the characters of `input` into a vector, one call of
/// `Chars::next` at a time.
fn chars_vec(input: &str) -> (v: Vec<char>)
    ensures
        v@ == input@,
{
    broadcast use vstd::string::axiom_spec_iter;
    broadcast use vstd::string::next_postcondition;

    let mut it = input.chars();
    let mut v: Vec<char> = Vec::new();
    loop
        invariant
            v@ + it.remaining() == input@,
            IteratorSpec::decrease(&it) is Some,
        ensures
            v@ + it.remaining() == input@,
            it.remaining().len() == 0,
        decreases IteratorSpec::decrease(&it)->Some_0,
    {
        match it.next() {
            Some(c) => {
                v.push(c);
            },
            None => {
                break ;
            },
        }
    }
    assert(v@ =~= input@);
    v
}

/// Stage 1 of the pipeline: an iterator-like cursor over the raw source
/// text that performs newline canonicalization and tracks line/column
/// coordinates.  The cursor is an index into an immutable buffer, so a
/// snapshot of it is a pair of integers.
pub struct CharsAndLocation {
    input: Vec<char>,
    i: usize,
    loc: Location,
}

impl CharsAndLocation {
    /// Internal consistency: the cursor is inside the buffer and the
    /// location counters are bounded by the number of characters consumed.
    pub closed spec fn wf(self) -> bool {
        &&& self.i <= self.input@.len()
        &&& self.input@.len() <= max_input_len()
        &&& 1 <= self.loc.line
        &&& self.loc.line <= self.i + 1
        &&& self.loc.pos <= self.i
    }

    /// The pairs this stage will still hand out.
    pub closed spec fn items(self) -> Seq<CharAndLocation> {
        normalize(self.input@.skip(self.i as int), self.loc)
    }

    /// How many raw characters have been consumed so far.
    pub closed spec fn pos_index(self) -> int {
        self.i as int
    }

    /// The length of the underlying buffer.
    pub closed spec fn cap(self) -> int {
        self.input@.len() as int
    }

    /// The underlying buffer itself; `next` never changes it.
    pub closed spec fn buf(self) -> Vec<char> {
        self.input
    }

    pub fn new(input: &str) -> (r: Self)
        requires
            input@.len() <= max_input_len(),
        ensures
            r.wf(),
            r.items() == normalize(input@, start_location()),
            r.pos_index() == 0,
            r.cap() == input@.len(),
    {
        let v = chars_vec(input);
        let r = CharsAndLocation { input: v, i: 0, loc: Location { line: 1, pos: 0 } };
        assert(r.input@.skip(0) =~= input@);
        r
    }

    /// Pops the head of `items()`: one logical newline per newline
    /// sequence, with its location, or the next plain character.
    pub fn next(&mut self) -> (r: Option<CharAndLocation>)
        requires
            old(self).wf(),
        ensures
            final(self).wf(),
            final(self).buf() == old(self).buf(),
            final(self).cap() == old(self).cap(),
            final(self).pos_index() >= old(self).pos_index(),
            old(self).items().len() == 0 ==> r is None && *final(self) == *old(self),
            old(self).items().len() > 0 ==> {
                &&& r == Some(old(self).items()[0])
                &&& final(self).items() == old(self).items().skip(1)
                &&& final(self).pos_index() > old(self).pos_index()
                &&& old(self).items()[0].1.pos < final(self).pos_index()
            },
    {
        let ghost s = self.input@.skip(self.i as int);
        if self.i >= self.input.len() {
            assert(s.len() == 0);
            return None;
        }
        let c = self.input[self.i];
        let cur = self.loc;
        assert(s[0] == c);
        if c == '\n' || c == '\r' {
            let mut step: usize = 1;
            if self.i + 1 < self.input.len() {
                let d = self.input[self.i + 1];
                assert(s[1] == d);
                if (c == '\n' && d == '\r') || (c == '\r' && d == '\n') {
                    step = 2;
                }
            }
            self.i = self.i + step;
            self.loc = Location { line: cur.line + 1, pos: 0 };
            assert(self.input@.skip(self.i as int) =~= s.skip(step as int));
            assert(self.items() =~= old(self).items().skip(1));
            Some(('\n', cur))
        } else {
            self.i = self.i + 1;
            self.loc = Location { line: cur.line, pos: cur.pos + 1 };
            assert(self.input@.skip(self.i as int) =~= s.skip(1));
            assert(self.items() =~= old(self).items().skip(1));
            Some((c, cur))
        }
    }
}

/// Phase 6 as a function: wherever a backslash is immediately followed by
/// a logical newline in the normalized stream, both are deleted.  Matching
/// is left to right on the post-normalization stream, so pairs that only
/// become adjacent through a deletion are not re-interpreted.
pub open spec fn splice(items: Seq<CharAndLocation>) -> Seq<CharAndLocation>
    decreases items.len(),
{
    if items.len() <= 0 {
        Seq::empty()
    } else if items[0].0 == '\\' && items.len() >= 2 && items[1].0 == '\n' {
        splice(items.skip(2))
    } else {
        seq![items[0]] + splice(items.skip(1))
    }
}

/// Stage 2 of the pipeline: deletes backslash-newline continuation
/// sequences from the normalized stream.  Consecutive continuations are
/// resolved by iteration, never by recursion, so stack use does not grow
/// with the input.
pub struct SkipBackslashNewline {
    inner: CharsAndLocation,
}

impl SkipBackslashNewline {
    pub closed spec fn wf(self) -> bool {
        self.inner.wf()
    }

    /// The pairs this stage will still hand out.
    pub closed spec fn items(self) -> Seq<CharAndLocation> {
        splice(self.inner.items())
    }

    pub closed spec fn pos_index(self) -> int {
        self.inner.pos_index()
    }

    pub closed spec fn cap(self) -> int {
        self.inner.cap()
    }

    /// The underlying buffer itself; `next` never changes it.
    pub closed spec fn buf(self) -> Vec<char> {
        self.inner.buf()
    }

    pub fn new(input: &str) -> (r: Self)
        requires
            input@.len() <= max_input_len(),
        ensures
            r.wf(),
            r.items() == splice(normalize(input@, start_location())),
            r.cap() == input@.len(),
    {
        SkipBackslashNewline { inner: CharsAndLocation::new(input) }
    }

    /// Pops the head of `items()`: the next character that is not part of
    /// a backslash-newline pair.
    pub fn next(&mut self) -> (r: Option<CharAndLocation>)
        requires
            old(self).wf(),
        ensures
            final(self).wf(),
            final(self).buf() == old(self).buf(),
            final(self).cap() == old(self).cap(),
            final(self).pos_index() >= old(self).pos_index(),
            old(self).items().len() == 0 ==> r is None && final(self).items() == old(
                self,
            ).items(),
            old(self).items().len() > 0 ==> {
                &&& r == Some(old(self).items()[0])
                &&& final(self).items() == old(self).items().skip(1)
                &&& final(self).pos_index() > old(self).pos_index()
                &&& old(self).items()[0].1.pos < final(self).pos_index()
            },
    {
        loop
            invariant
                self.inner.wf(),
                self.items() == old(self).items(),
                self.buf() == old(self).buf(),
                self.cap() == old(self).cap(),
                self.pos_index() >= old(self).pos_index(),
            decreases self.inner.items().len(),
        {
            let ghost inner0 = self.inner.items();
            match self.inner.next() {
                None => {
                    return None;
                },
                Some((c, l)) => {
                    assert((c, l) == inner0[0]);
                    if c == '\\' {
                        let save_i = self.inner.i;
                        let save_loc = self.inner.loc;
                        let ghost inner1 = self.inner;
                        match self.inner.next() {
                            Some((c2, _)) => {
                                if c2 == '\n' {
                                    proof {
                                        assert(inner1.items()[0] == inner0[1]);
                                        assert(self.inner.items() =~= inner0.skip(2));
                                        assert(splice(inner0) == splice(self.inner.items()));
                                    }
                                } else {
                                    self.inner.i = save_i;
                                    self.inner.loc = save_loc;
                                    proof {
                                        assert(self.inner == inner1);
                                        assert(inner0.len() >= 2 && inner0[1].0 == c2);
                                        assert(splice(inner0) == seq![inner0[0]] + splice(
                                            self.inner.items(),
                                        ));
                                        assert(old(self).items().skip(1) =~= splice(
                                            self.inner.items(),
                                        ));
                                    }
                                    return Some(('\\', l));
                                }
                            },
                            None => {
                                self.inner.i = save_i;
                                self.inner.loc = save_loc;
                                proof {
                                    assert(self.inner == inner1);
                                    assert(inner0.len() == 1);
                                    assert(splice(inner0) == seq![inner0[0]] + splice(
                                        self.inner.items(),
                                    ));
                                    assert(old(self).items().skip(1) =~= splice(
                                        self.inner.items(),
                                    ));
                                }
                                return Some(('\\', l));
                            },
                        }
                    } else {
                        proof {
                            assert(splice(inner0) == seq![inner0[0]] + splice(self.inner.items()));
                            assert(old(self).items().skip(1) =~= splice(self.inner.items()));
                        }
                        return Some((c, l));
                    }
                },
            }
        }
    }
}


/// The reserved whitespace-equivalent value that stands in for a stripped
/// comment.  It can never collide with a real character because stage 1
/// has already replaced every raw carriage-return with `'\n'`.
pub const COMMENT_SENTINEL_VALUE: char = '\r';

/// The index just past a `//` comment's body: the first index at or after
/// `j` holding a newline (the newline itself is not part of the comment),
/// or the end of the stream.
pub open spec fn line_comment_end(items: Seq<CharAndLocation>, j: int) -> int
    decreases items.len() - j,
{
    if j >= items.len() {
        items.len() as int
    } else if items[j].0 == '\n' {
        j
    } else {
        line_comment_end(items, j + 1)
    }
}

/// The index just past a `/*` comment: scanning from `j`, the index after
/// the first `*/` whose `*` was read at or after `j` (`was_star` tells
/// whether the previous character was a `*`), or the end of the stream if
/// the comment is unterminated.
pub open spec fn block_comment_end(items: Seq<CharAndLocation>, j: int, was_star: bool) -> int
    decreases items.len() - j,
{
    if j >= items.len() {
        items.len() as int
    } else if was_star && items[j].0 == '/' {
        j + 1
    } else {
        block_comment_end(items, j + 1, items[j].0 == '*')
    }
}

proof fn lemma_line_comment_end_bounds(items: Seq<CharAndLocation>, j: int)
    requires
        0 <= j <= items.len(),
    ensures
        j <= line_comment_end(items, j) <= items.len(),
    decreases items.len() - j,
{
    if j < items.len() && items[j].0 != '\n' {
        lemma_line_comment_end_bounds(items, j + 1);
    }
}

proof fn lemma_block_comment_end_bounds(items: Seq<CharAndLocation>, j: int, was_star: bool)
    requires
        0 <= j <= items.len(),
    ensures
        j <= block_comment_end(items, j, was_star) <= items.len(),
    decreases items.len() - j,
{
    if j < items.len() && !(was_star && items[j].0 == '/') {
        lemma_block_comment_end_bounds(items, j + 1, items[j].0 == '*');
    }
}

/// Phase 7 as a function: every `//` comment (through, but not including,
/// the next newline) and every `/*` comment (through and including the
/// matching `*/`, or to the end of input when unterminated) is replaced by
/// one sentinel unit at the comment's start location; everything else
/// passes through unchanged.
pub open spec fn strip_comments(items: Seq<CharAndLocation>) -> Seq<CharAndLocation>
    decreases items.len(),
    via strip_comments_decreases
{
    if items.len() <= 0 {
        Seq::empty()
    } else if items[0].0 == '/' && items.len() >= 2 && items[1].0 == '/' {
        seq![(COMMENT_SENTINEL_VALUE, items[0].1)] + strip_comments(
            items.skip(line_comment_end(items, 2)),
        )
    } else if items[0].0 == '/' && items.len() >= 2 && items[1].0 == '*' {
        seq![(COMMENT_SENTINEL_VALUE, items[0].1)] + strip_comments(
            items.skip(block_comment_end(items, 2, false)),
        )
    } else {
        seq![items[0]] + strip_comments(items.skip(1))
    }
}

#[via_fn]
proof fn strip_comments_decreases(items: Seq<CharAndLocation>) {
    if items.len() >= 2 && items[0].0 == '/' && items[1].0 == '/' {
        lemma_line_comment_end_bounds(items, 2);
    }
    if items.len() >= 2 && items[0].0 == '/' && items[1].0 == '*' {
        lemma_block_comment_end_bounds(items, 2, false);
    }
}

/// Normalization replaces every raw carriage-return with `'\n'`, so no
/// unit of the normalized stream holds one.
proof fn lemma_normalize_no_cr(s: Seq<char>, loc: Location)
    ensures
        forall|k: int|
            0 <= k < normalize(s, loc).len() ==> (#[trigger] normalize(s, loc)[k]).0 != '\r',
    decreases s.len(),
{
    if s.len() > 0 {
        let out = normalize(s, loc);
        if s[0] == '\n' || s[0] == '\r' {
            let step: int = if s.len() >= 2 && is_newline_pair(s[0], s[1]) {
                2
            } else {
                1
            };
            let loc2 = Location { line: (loc.line + 1) as u32, pos: 0 };
            lemma_normalize_no_cr(s.skip(step), loc2);
            assert(out.skip(1) =~= normalize(s.skip(step), loc2));
        } else {
            let loc2 = Location { line: loc.line, pos: (loc.pos + 1) as u32 };
            lemma_normalize_no_cr(s.skip(1), loc2);
            assert(out.skip(1) =~= normalize(s.skip(1), loc2));
        }
        assert forall|k: int| 0 <= k < out.len() implies (#[trigger] out[k]).0 != '\r' by {
            if k > 0 {
                assert(out[k] == out.skip(1)[k - 1]);
            }
        }
    }
}

/// Continuation splicing only deletes units, so a stream without
/// carriage-returns stays without them.
proof fn lemma_splice_no_cr(items: Seq<CharAndLocation>)
    requires
        forall|k: int| 0 <= k < items.len() ==> (#[trigger] items[k]).0 != '\r',
    ensures
        forall|k: int|
            0 <= k < splice(items).len() ==> (#[trigger] splice(items)[k]).0 != '\r',
    decreases items.len(),
{
    if items.len() > 0 {
        let out = splice(items);
        if items[0].0 == '\\' && items.len() >= 2 && items[1].0 == '\n' {
            assert(forall|k: int|
                0 <= k < items.skip(2).len() ==> (#[trigger] items.skip(2)[k]).0 != '\r');
            lemma_splice_no_cr(items.skip(2));
            assert forall|k: int| 0 <= k < out.len() implies (#[trigger] out[k]).0 != '\r' by {
                assert(out[k] == splice(items.skip(2))[k]);
            }
        } else {
            assert(forall|k: int|
                0 <= k < items.skip(1).len() ==> (#[trigger] items.skip(1)[k]).0 != '\r');
            lemma_splice_no_cr(items.skip(1));
            assert(out.skip(1) =~= splice(items.skip(1)));
            assert forall|k: int| 0 <= k < out.len() implies (#[trigger] out[k]).0 != '\r' by {
                if k > 0 {
                    assert(out[k] == out.skip(1)[k - 1]);
                }
            }
        }
    }
}

/// Stage 3 of the pipeline: replaces comments with sentinel units.
pub struct ReplaceComments {
    inner: SkipBackslashNewline,
}

impl ReplaceComments {
    pub closed spec fn wf(self) -> bool {
        self.inner.wf()
    }

    /// The pairs this stage will still hand out.
    pub closed spec fn items(self) -> Seq<CharAndLocation> {
        strip_comments(self.inner.items())
    }

    pub closed spec fn pos_index(self) -> int {
        self.inner.pos_index()
    }

    pub closed spec fn cap(self) -> int {
        self.inner.cap()
    }

    /// The underlying buffer itself; `next` never changes it.
    pub closed spec fn buf(self) -> Vec<char> {
        self.inner.buf()
    }

    pub fn new(input: &str) -> (r: Self)
        requires
            input@.len() <= max_input_len(),
        ensures
            r.wf(),
            r.items() == strip_comments(splice(normalize(input@, start_location()))),
            r.cap() == input@.len(),
    {
        ReplaceComments { inner: SkipBackslashNewline::new(input) }
    }

    /// Pops the head of `items()`: the next character outside a comment,
    /// or the sentinel standing in for a whole comment.
    pub fn next(&mut self) -> (r: Option<CharAndLocation>)
        requires
            old(self).wf(),
        ensures
            final(self).wf(),
            final(self).cap() == old(self).cap(),
            final(self).pos_index() >= old(self).pos_index(),
            old(self).items().len() == 0 ==> r is None && final(self).items() == old(
                self,
            ).items(),
            old(self).items().len() > 0 ==> {
                &&& r == Some(old(self).items()[0])
                &&& final(self).items() == old(self).items().skip(1)
                &&& final(self).pos_index() > old(self).pos_index()
                &&& old(self).items()[0].1.pos < final(self).pos_index()
            },
            final(self).buf() == old(self).buf(),
    {
        let ghost inner0 = self.inner.items();
        let current = match self.inner.next() {
            None => {
                return None;
            },
            Some(cl) => cl,
        };
        assert(current == inner0[0]);
        proof {
            // The sentinel can never collide with a real unit: stage 1
            // eliminated every raw carriage-return.
            let base = old(self).inner.inner;
            lemma_normalize_no_cr(base.input@.skip(base.i as int), base.loc);
            lemma_splice_no_cr(base.items());
            assert(current.0 != COMMENT_SENTINEL_VALUE);
        }
        if current.0 != '/' {
            proof {
                assert(strip_comments(inner0) == seq![inner0[0]] + strip_comments(
                    self.inner.items(),
                ));
                assert(old(self).items().skip(1) =~= strip_comments(self.inner.items()));
            }
            return Some(current);
        }
        let save_i = self.inner.inner.i;
        let save_loc = self.inner.inner.loc;
        let ghost inner_saved = self.inner;
        match self.inner.next() {
            Some((c2, _)) if c2 == '/' => {
                // A `//` comment: consume through, but not including, the
                // next newline.
                let ghost body0 = self.inner.items();
                let ghost j0: int = 2;
                assert(body0 =~= inner0.skip(2));
                loop
                    invariant
                        self.inner.wf(),
                        self.inner.buf() == old(self).buf(),
                        self.inner.cap() == old(self).cap(),
                        self.inner.pos_index() > old(self).pos_index(),
                        inner0[0].1.pos < self.inner.pos_index(),
                        2 <= j0 <= inner0.len(),
                        self.inner.items() =~= inner0.skip(j0),
                        line_comment_end(inner0, 2) == line_comment_end(inner0, j0),
                    ensures
                        self.inner.wf(),
                        self.inner.buf() == old(self).buf(),
                        self.inner.cap() == old(self).cap(),
                        self.inner.pos_index() > old(self).pos_index(),
                        inner0[0].1.pos < self.inner.pos_index(),
                        self.inner.items() =~= inner0.skip(line_comment_end(inner0, 2)),
                    decreases self.inner.items().len(),
                {
                    let save2_i = self.inner.inner.i;
                    let save2_loc = self.inner.inner.loc;
                    let ghost before = self.inner;
                    match self.inner.next() {
                        None => {
                            proof {
                                assert(j0 == inner0.len());
                                assert(line_comment_end(inner0, j0) == j0);
                            }
                            break ;
                        },
                        Some((next, _)) => {
                            if next == '\n' {
                                self.inner.inner.i = save2_i;
                                self.inner.inner.loc = save2_loc;
                                proof {
                                    assert(self.inner.inner.input == before.inner.input);
                                    assert(self.inner.inner == before.inner);
                                    assert(self.inner == before);
                                    assert(inner0[j0].0 == '\n');
                                    assert(line_comment_end(inner0, j0) == j0);
                                }
                                break ;
                            }
                            proof {
                                assert(inner0[j0].0 == next);
                                assert(line_comment_end(inner0, j0) == line_comment_end(
                                    inner0,
                                    j0 + 1,
                                ));
                                j0 = j0 + 1;
                                assert(self.inner.items() =~= inner0.skip(j0));
                            }
                        },
                    }
                }
                proof {
                    assert(strip_comments(inner0) == seq![(COMMENT_SENTINEL_VALUE, inner0[0].1)]
                        + strip_comments(self.inner.items()));
                    assert(old(self).items().skip(1) =~= strip_comments(self.inner.items()));
                }
                Some((COMMENT_SENTINEL_VALUE, current.1))
            },
            Some((c2, _)) if c2 == '*' => {
                // A `/*` comment: consume through and including the next
                // `*/`, or to the end of input when there is none.
                let ghost j0: int = 2;
                let mut was_star = false;
                assert(self.inner.items() =~= inner0.skip(2));
                loop
                    invariant_except_break
                        self.inner.items() =~= inner0.skip(j0),
                        was_star == (j0 > 2 && inner0[j0 - 1].0 == '*'),
                        block_comment_end(inner0, 2, false) == block_comment_end(
                            inner0,
                            j0,
                            was_star,
                        ),
                    invariant
                        self.inner.wf(),
                        self.inner.buf() == old(self).buf(),
                        self.inner.cap() == old(self).cap(),
                        self.inner.pos_index() > old(self).pos_index(),
                        inner0[0].1.pos < self.inner.pos_index(),
                        2 <= j0 <= inner0.len(),
                    ensures
                        self.inner.wf(),
                        self.inner.buf() == old(self).buf(),
                        self.inner.cap() == old(self).cap(),
                        self.inner.pos_index() > old(self).pos_index(),
                        inner0[0].1.pos < self.inner.pos_index(),
                        self.inner.items() =~= inner0.skip(
                            block_comment_end(inner0, 2, false),
                        ),
                    decreases self.inner.items().len(),
                {
                    match self.inner.next() {
                        None => {
                            proof {
                                assert(j0 == inner0.len());
                            }
                            break ;
                        },
                        Some((next, _)) => {
                            proof {
                                assert(inner0[j0].0 == next);
                            }
                            if was_star && next == '/' {
                                proof {
                                    assert(block_comment_end(inner0, j0, was_star) == j0 + 1);
                                    j0 = j0 + 1;
                                    assert(self.inner.items() =~= inner0.skip(j0));
                                }
                                break ;
                            }
                            was_star = next == '*';
                            proof {
                                j0 = j0 + 1;
                                assert(self.inner.items() =~= inner0.skip(j0));
                            }
                        },
                    }
                }
                proof {
                    assert(strip_comments(inner0) == seq![(COMMENT_SENTINEL_VALUE, inner0[0].1)]
                        + strip_comments(self.inner.items()));
                    assert(old(self).items().skip(1) =~= strip_comments(self.inner.items()));
                }
                Some((COMMENT_SENTINEL_VALUE, current.1))
            },
            _ => {
                // Not `//` or `/*`: hand the `/` out unchanged and resume
                // from the saved point.
                self.inner.inner.i = save_i;
                self.inner.inner.loc = save_loc;
                proof {
                    assert(self.inner.inner.input == inner_saved.inner.input);
                    assert(self.inner.inner == inner_saved.inner);
                    assert(self.inner == inner_saved);
                    assert(strip_comments(inner0) == seq![inner0[0]] + strip_comments(
                        self.inner.items(),
                    ));
                    assert(old(self).items().skip(1) =~= strip_comments(self.inner.items()));
                }
                Some(current)
            },
        }
    }
}


/// A token value handed to the preprocessor, plus the two structural
/// values (`Hash`, `NewLine`) only the preprocessor cares about.
#[derive(Clone, PartialEq, Debug)]
pub enum TokenValue {
    // Preprocessor specific token values
    Hash,
    NewLine,
    // Regular token values
    Ident(String),
    Integer(Integer),
    Float(Float),
    Punct(Punct),
}

impl From<Punct> for TokenValue {
    fn from(punct: Punct) -> (r: Self)
        ensures
            r == TokenValue::Punct(punct),
    {
        TokenValue::Punct(punct)
    }
}

impl vstd::std_specs::convert::FromSpecImpl<Punct> for TokenValue {
    open spec fn obeys_from_spec() -> bool {
        true
    }

    open spec fn from_spec(punct: Punct) -> Self {
        TokenValue::Punct(punct)
    }
}

/// The mathematical shape of a token value: identifier and float texts
/// are sequences of characters.
pub enum SpecTokenValue {
    Hash,
    NewLine,
    Ident(Seq<char>),
    Integer(Integer),
    Float(Seq<char>, i32),
    Punct(Punct),
}

impl View for TokenValue {
    type V = SpecTokenValue;

    open spec fn view(&self) -> SpecTokenValue {
        match self {
            TokenValue::Hash => SpecTokenValue::Hash,
            TokenValue::NewLine => SpecTokenValue::NewLine,
            TokenValue::Ident(s) => SpecTokenValue::Ident(s@),
            TokenValue::Integer(i) => SpecTokenValue::Integer(*i),
            TokenValue::Float(f) => SpecTokenValue::Float(f.digits@, f.width),
            TokenValue::Punct(p) => SpecTokenValue::Punct(*p),
        }
    }
}

/// A classified token with its location and adjacency metadata.
/// `leading_whitespace` is true when whitespace or a comment preceded the
/// token since the previous token (or the start of input);
/// `start_of_line` is true when no token has appeared since the last
/// newline.
#[derive(Clone, PartialEq, Debug)]
pub struct Token {
    pub value: TokenValue,
    pub location: Location,
    pub leading_whitespace: bool,
    pub start_of_line: bool,
}

/// The mathematical shape of a [`Token`].
pub struct SpecToken {
    pub value: SpecTokenValue,
    pub location: Location,
    pub leading_whitespace: bool,
    pub start_of_line: bool,
}

impl View for Token {
    type V = SpecToken;

    open spec fn view(&self) -> SpecToken {
        SpecToken {
            value: self.value@,
            location: self.location,
            leading_whitespace: self.leading_whitespace,
            start_of_line: self.start_of_line,
        }
    }
}

/// One pull from the lexer: a token, or a lexical error at a location.
pub type LexerItem = Result<Token, (PreprocessorError, Location)>;

/// The mathematical shape of a [`LexerItem`].
pub type SpecLexerItem = Result<SpecToken, (PreprocessorError, Location)>;

/// The shape of a lexer item.
pub open spec fn item_view(it: LexerItem) -> SpecLexerItem {
    match it {
        Ok(t) => Ok(t@),
        Err(e) => Err(e),
    }
}

// ---------------------------------------------------------------------
// Character classes
// ---------------------------------------------------------------------

/// Horizontal whitespace: space, tab, vertical tab, form feed, or the
/// sentinel standing in for a comment.
pub open spec fn is_hspace(c: char) -> bool {
    c == ' ' || c == '\t' || c == '\x0b' || c == '\x0c' || c == COMMENT_SENTINEL_VALUE
}

/// An ASCII decimal digit.
pub open spec fn is_digit_char(c: char) -> bool {
    '0' as int <= c as int && c as int <= '9' as int
}

/// An ASCII hexadecimal digit.
pub open spec fn is_hex_digit_char(c: char) -> bool {
    is_digit_char(c) || ('a' as int <= c as int && c as int <= 'f' as int) || ('A' as int
        <= c as int && c as int <= 'F' as int)
}

/// A character that may start an identifier: an ASCII letter or `_`.
pub open spec fn is_ident_start(c: char) -> bool {
    ('a' as int <= c as int && c as int <= 'z' as int) || ('A' as int <= c as int && c as int
        <= 'Z' as int) || c == '_'
}

/// A character that may continue an identifier.
pub open spec fn is_ident_char(c: char) -> bool {
    is_ident_start(c) || is_digit_char(c)
}

fn ch_is_digit(c: char) -> (b: bool)
    ensures
        b == is_digit_char(c),
{
    c as u32 >= '0' as u32 && c as u32 <= '9' as u32
}

fn ch_is_ident_start(c: char) -> (b: bool)
    ensures
        b == is_ident_start(c),
{
    (c as u32 >= 'a' as u32 && c as u32 <= 'z' as u32) || (c as u32 >= 'A' as u32 && c as u32
        <= 'Z' as u32) || c == '_'
}

fn ch_is_hex_digit(c: char) -> (b: bool)
    ensures
        b == is_hex_digit_char(c),
{
    ch_is_digit(c) || (c as u32 >= 'a' as u32 && c as u32 <= 'f' as u32) || (c as u32
        >= 'A' as u32 && c as u32 <= 'F' as u32)
}

// ---------------------------------------------------------------------
// Maximal-munch punctuation table
// ---------------------------------------------------------------------

/// The fixed priority table for punctuation matching over up to three
/// characters of lookahead (`'\0'` stands for absent characters): the
/// matched symbol and how many characters it covers.  Three-character
/// compound assignments come first, then two-character operators, then
/// single characters, so the longest match always wins.
pub open spec fn punct_of(c0: char, c1: char, c2: char) -> Option<(Punct, int)> {
    if c0 == '<' && c1 == '<' && c2 == '=' {
        Some((Punct::LeftShiftAssign, 3))
    } else if c0 == '<' && c1 == '<' {
        Some((Punct::LeftShift, 2))
    } else if c0 == '<' && c1 == '=' {
        Some((Punct::LessEqual, 2))
    } else if c0 == '<' {
        Some((Punct::LeftAngle, 1))
    } else if c0 == '>' && c1 == '>' && c2 == '=' {
        Some((Punct::RightShiftAssign, 3))
    } else if c0 == '>' && c1 == '>' {
        Some((Punct::RightShift, 2))
    } else if c0 == '>' && c1 == '=' {
        Some((Punct::GreaterEqual, 2))
    } else if c0 == '>' {
        Some((Punct::RightAngle, 1))
    } else if c0 == '+' && c1 == '+' {
        Some((Punct::Increment, 2))
    } else if c0 == '+' && c1 == '=' {
        Some((Punct::AddAssign, 2))
    } else if c0 == '+' {
        Some((Punct::Plus, 1))
    } else if c0 == '-' && c1 == '-' {
        Some((Punct::Decrement, 2))
    } else if c0 == '-' && c1 == '=' {
        Some((Punct::SubAssign, 2))
    } else if c0 == '-' {
        Some((Punct::Minus, 1))
    } else if c0 == '&' && c1 == '&' {
        Some((Punct::LogicalAnd, 2))
    } else if c0 == '&' && c1 == '=' {
        Some((Punct::AndAssign, 2))
    } else if c0 == '&' {
        Some((Punct::Ampersand, 1))
    } else if c0 == '|' && c1 == '|' {
        Some((Punct::LogicalOr, 2))
    } else if c0 == '|' && c1 == '=' {
        Some((Punct::OrAssign, 2))
    } else if c0 == '|' {
        Some((Punct::Pipe, 1))
    } else if c0 == '^' && c1 == '^' {
        Some((Punct::LogicalXor, 2))
    } else if c0 == '^' && c1 == '=' {
        Some((Punct::XorAssign, 2))
    } else if c0 == '^' {
        Some((Punct::Caret, 1))
    } else if c0 == '=' && c1 == '=' {
        Some((Punct::EqualEqual, 2))
    } else if c0 == '=' {
        Some((Punct::Equal, 1))
    } else if c0 == '!' && c1 == '=' {
        Some((Punct::NotEqual, 2))
    } else if c0 == '!' {
        Some((Punct::Bang, 1))
    } else if c0 == '*' && c1 == '=' {
        Some((Punct::MulAssign, 2))
    } else if c0 == '*' {
        Some((Punct::Star, 1))
    } else if c0 == '/' && c1 == '=' {
        Some((Punct::DivAssign, 2))
    } else if c0 == '/' {
        Some((Punct::Slash, 1))
    } else if c0 == '%' && c1 == '=' {
        Some((Punct::ModAssign, 2))
    } else if c0 == '%' {
        Some((Punct::Percent, 1))
    } else if c0 == '(' {
        Some((Punct::LeftParen, 1))
    } else if c0 == ')' {
        Some((Punct::RightParen, 1))
    } else if c0 == '{' {
        Some((Punct::LeftBrace, 1))
    } else if c0 == '}' {
        Some((Punct::RightBrace, 1))
    } else if c0 == '[' {
        Some((Punct::LeftBracket, 1))
    } else if c0 == ']' {
        Some((Punct::RightBracket, 1))
    } else if c0 == '.' {
        Some((Punct::Dot, 1))
    } else if c0 == ',' {
        Some((Punct::Comma, 1))
    } else if c0 == ';' {
        Some((Punct::Semicolon, 1))
    } else if c0 == ':' {
        Some((Punct::Colon, 1))
    } else if c0 == '~' {
        Some((Punct::Tilde, 1))
    } else if c0 == '?' {
        Some((Punct::Question, 1))
    } else {
        None
    }
}


// ---------------------------------------------------------------------
// Positions of token boundaries in the comment-stripped stream
// ---------------------------------------------------------------------

/// First index at or after `j` that is not horizontal whitespace, or the
/// end of the stream.
pub open spec fn ws_end(cs: Seq<CharAndLocation>, j: int) -> int
    decreases cs.len() - j,
{
    if j >= cs.len() {
        cs.len() as int
    } else if is_hspace(cs[j].0) {
        ws_end(cs, j + 1)
    } else {
        j
    }
}

/// Whether a comment sentinel occurs among the first `p` units.
pub open spec fn has_sentinel(cs: Seq<CharAndLocation>, p: int) -> bool {
    exists|k: int| 0 <= k < p && p <= cs.len() && cs[k].0 == COMMENT_SENTINEL_VALUE
}

/// First index at or after `j` that cannot continue an identifier.
pub open spec fn ident_end(cs: Seq<CharAndLocation>, j: int) -> int
    decreases cs.len() - j,
{
    if j >= cs.len() {
        cs.len() as int
    } else if is_ident_char(cs[j].0) {
        ident_end(cs, j + 1)
    } else {
        j
    }
}

/// First index at or after `j` that is not a digit (hexadecimal when
/// `hex` is set, decimal otherwise).
pub open spec fn run_end(cs: Seq<CharAndLocation>, j: int, hex: bool) -> int
    decreases cs.len() - j,
{
    if j >= cs.len() {
        cs.len() as int
    } else if (hex && is_hex_digit_char(cs[j].0)) || (!hex && is_digit_char(cs[j].0)) {
        run_end(cs, j + 1, hex)
    } else {
        j
    }
}

/// The characters of `cs` between indices `a` and `b`.
pub open spec fn chars_of(cs: Seq<CharAndLocation>, a: int, b: int) -> Seq<char> {
    cs.subrange(a, b).map_values(|x: CharAndLocation| x.0)
}

proof fn lemma_ws_end_bounds(cs: Seq<CharAndLocation>, j: int)
    requires
        0 <= j <= cs.len(),
    ensures
        j <= ws_end(cs, j) <= cs.len(),
    decreases cs.len() - j,
{
    if j < cs.len() && is_hspace(cs[j].0) {
        lemma_ws_end_bounds(cs, j + 1);
    }
}

proof fn lemma_ident_end_bounds(cs: Seq<CharAndLocation>, j: int)
    requires
        0 <= j <= cs.len(),
    ensures
        j <= ident_end(cs, j) <= cs.len(),
    decreases cs.len() - j,
{
    if j < cs.len() && is_ident_char(cs[j].0) {
        lemma_ident_end_bounds(cs, j + 1);
    }
}

proof fn lemma_run_end_bounds(cs: Seq<CharAndLocation>, j: int, hex: bool)
    requires
        0 <= j <= cs.len(),
    ensures
        j <= run_end(cs, j, hex) <= cs.len(),
    decreases cs.len() - j,
{
    if j < cs.len() && ((hex && is_hex_digit_char(cs[j].0)) || (!hex && is_digit_char(cs[j].0))) {
        lemma_run_end_bounds(cs, j + 1, hex);
    }
}

// ---------------------------------------------------------------------
// Numeric literal values
// ---------------------------------------------------------------------

/// The value of one digit character, or `-1` when it is no digit at all.
pub open spec fn digit_val(c: char) -> int {
    if is_digit_char(c) {
        c as int - '0' as int
    } else if 'a' as int <= c as int && c as int <= 'f' as int {
        c as int - 'a' as int + 10
    } else if 'A' as int <= c as int && c as int <= 'F' as int {
        c as int - 'A' as int + 10
    } else {
        -1
    }
}

/// Whether `c` is a valid digit in the given radix.
pub open spec fn digit_ok(c: char, radix: int) -> bool {
    0 <= digit_val(c) && digit_val(c) < radix
}

/// Whether a digit string is non-empty and all of its digits are valid in
/// the given radix.
pub open spec fn digits_ok(ds: Seq<char>, radix: int) -> bool {
    ds.len() > 0 && forall|k: int| 0 <= k < ds.len() ==> #[trigger] digit_ok(ds[k], radix)
}

/// The unbounded integer a digit string denotes in the given radix.
pub open spec fn digits_value(ds: Seq<char>, radix: int) -> int
    decreases ds.len(),
{
    if ds.len() <= 0 {
        0
    } else {
        digits_value(ds.drop_last(), radix) * radix + digit_val(ds.last())
    }
}

/// What 64-bit unsigned radix conversion returns for a digit string:
/// its value, or nothing when the string is empty, holds an invalid
/// digit, or denotes a value above `u64::MAX`.
pub open spec fn parse_u64_spec(ds: Seq<char>, radix: int) -> Option<u64> {
    if digits_ok(ds, radix) && digits_value(ds, radix) <= u64::MAX {
        Some(digits_value(ds, radix) as u64)
    } else {
        None
    }
}

proof fn lemma_digits_value_nonneg(ds: Seq<char>, radix: int)
    requires
        radix >= 2,
        forall|k: int| 0 <= k < ds.len() ==> #[trigger] digit_ok(ds[k], radix),
    ensures
        digits_value(ds, radix) >= 0,
    decreases ds.len(),
{
    if ds.len() > 0 {
        let head = ds.drop_last();
        assert(forall|k: int| 0 <= k < head.len() ==> #[trigger] digit_ok(head[k], radix)) by {
            assert(forall|k: int| 0 <= k < head.len() ==> head[k] == ds[k]);
        }
        lemma_digits_value_nonneg(head, radix);
        assert(digit_ok(ds[ds.len() - 1], radix));
        assert(digits_value(head, radix) * radix >= 0) by (nonlinear_arith)
            requires
                digits_value(head, radix) >= 0,
                radix >= 2,
        ;
    }
}

/// Appending further valid digits never decreases the denoted value.
proof fn lemma_digits_value_prefix(ds: Seq<char>, radix: int, k: int)
    requires
        radix >= 2,
        0 <= k <= ds.len(),
        forall|i: int| 0 <= i < ds.len() ==> #[trigger] digit_ok(ds[i], radix),
    ensures
        digits_value(ds.take(k), radix) <= digits_value(ds, radix),
    decreases ds.len(),
{
    if k < ds.len() {
        let head = ds.drop_last();
        assert(forall|i: int| 0 <= i < head.len() ==> #[trigger] digit_ok(head[i], radix)) by {
            assert(forall|i: int| 0 <= i < head.len() ==> head[i] == ds[i]);
        }
        assert(head.take(k) =~= ds.take(k));
        lemma_digits_value_prefix(head, radix, k);
        lemma_digits_value_nonneg(head, radix);
        assert(digit_ok(ds[ds.len() - 1], radix));
        assert(digits_value(ds, radix) == digits_value(head, radix) * radix + digit_val(
            ds.last(),
        ));
        assert(digits_value(head, radix) * radix >= digits_value(head, radix)) by (nonlinear_arith)
            requires
                digits_value(head, radix) >= 0,
                radix >= 2,
        ;
    } else {
        assert(ds.take(k) =~= ds);
    }
}


// ---------------------------------------------------------------------
// Numeric literal parsing, as a function
// ---------------------------------------------------------------------

/// Whether a float literal's accumulated text is plain decimal syntax:
/// nothing but decimal digits and the period.  Radix-16 digits that
/// slipped into it (a hexadecimal prefix re-read as a float) make the
/// decimal conversion fail.
pub open spec fn float_text_ok(raw: Seq<char>) -> bool {
    forall|k: int| 0 <= k < raw.len() ==> is_digit_char(#[trigger] raw[k]) || raw[k] == '.'
}

/// The outcome of parsing one numeric literal whose first character has
/// already been consumed: the token value or lexical error, and how many
/// further units the literal covers.
pub struct NumOut {
    pub res: Result<SpecTokenValue, PreprocessorError>,
    pub taken: int,
}

/// Finishing a float literal at its suffix position: `l`/`L` and `h`/`H`
/// width suffixes are rejected and consumed, so lexing resumes after
/// them; `f`/`F` is accepted and consumed; the width is always 32.  Text
/// that is not plain decimal syntax fails the conversion.
pub open spec fn float_finish(cs: Seq<CharAndLocation>, taken0: int, raw: Seq<char>) -> NumOut {
    if cs.len() > 0 && (cs[0].0 == 'l' || cs[0].0 == 'L') {
        NumOut { res: Err(PreprocessorError::NotSupported64BitLiteral), taken: taken0 + 1 }
    } else if cs.len() > 0 && (cs[0].0 == 'h' || cs[0].0 == 'H') {
        NumOut { res: Err(PreprocessorError::NotSupported16BitLiteral), taken: taken0 + 1 }
    } else {
        let taken1 = if cs.len() > 0 && (cs[0].0 == 'f' || cs[0].0 == 'F') {
            taken0 + 1
        } else {
            taken0
        };
        if float_text_ok(raw) {
            NumOut { res: Ok(SpecTokenValue::Float(raw, 32)), taken: taken1 }
        } else {
            NumOut { res: Err(PreprocessorError::FloatParsingError), taken: taken1 }
        }
    }
}

/// Finishing an integer literal at its suffix position: an optional
/// `u`/`U` marks it unsigned; `l`/`L` and `s`/`S` width suffixes are
/// rejected and consumed, so lexing resumes after them; otherwise the
/// digits (with the radix-selecting leading `0` stripped for radix 8 and
/// 16) go through 64-bit radix conversion, whose failure is an
/// `IntegerOverflow`.
pub open spec fn int_finish(cs: Seq<CharAndLocation>, taken0: int, raw: Seq<char>, radix: int) -> NumOut {
    let signed = !(cs.len() > 0 && (cs[0].0 == 'u' || cs[0].0 == 'U'));
    let cs1 = if signed { cs } else { cs.skip(1) };
    let taken1 = if signed { taken0 } else { taken0 + 1 };
    if cs1.len() > 0 && (cs1[0].0 == 'l' || cs1[0].0 == 'L') {
        NumOut { res: Err(PreprocessorError::NotSupported64BitLiteral), taken: taken1 + 1 }
    } else if cs1.len() > 0 && (cs1[0].0 == 's' || cs1[0].0 == 'S') {
        NumOut { res: Err(PreprocessorError::NotSupported16BitLiteral), taken: taken1 + 1 }
    } else {
        let ds = if radix != 10 { raw.skip(1) } else { raw };
        match parse_u64_spec(ds, radix) {
            Some(v) => NumOut {
                res: Ok(SpecTokenValue::Integer(Integer { value: v, signed, width: 32 })),
                taken: taken1,
            },
            None => NumOut { res: Err(PreprocessorError::IntegerOverflow), taken: taken1 },
        }
    }
}

/// Parsing one numeric literal: `cs` is the stream just after the first
/// character `first` of the literal.  A leading `0x`/`0X` selects radix
/// 16; a leading `0` followed by another digit tentatively selects radix
/// 8, but all decimal digits are consumed so the same prefix can still
/// turn out to be the integer part of a float; a `.` (or starting with
/// `.`) forces float mode.
#[verifier::opaque]
pub open spec fn num_step(cs: Seq<CharAndLocation>, first: char) -> NumOut {
    if first == '.' {
        let f = run_end(cs, 0, false);
        float_finish(cs.skip(f), f, seq!['.'] + chars_of(cs, 0, f))
    } else if first == '0' && cs.len() > 0 && (cs[0].0 == 'x' || cs[0].0 == 'X') {
        let csx = cs.skip(1);
        let h = run_end(csx, 0, true);
        let raw = seq!['0'] + chars_of(csx, 0, h);
        let csh = csx.skip(h);
        let d = run_end(csh, 0, false);
        let raw2 = raw + chars_of(csh, 0, d);
        let csd = csh.skip(d);
        if csd.len() > 0 && csd[0].0 == '.' {
            let csf = csd.skip(1);
            let f = run_end(csf, 0, false);
            float_finish(
                csf.skip(f),
                1 + h + d + 1 + f,
                raw2 + seq!['.'] + chars_of(csf, 0, f),
            )
        } else {
            int_finish(csd, 1 + h + d, raw2, 16)
        }
    } else {
        let radix: int = if first == '0' && cs.len() > 0 && is_digit_char(cs[0].0) {
            8
        } else {
            10
        };
        let d = run_end(cs, 0, false);
        let raw2 = seq![first] + chars_of(cs, 0, d);
        let csd = cs.skip(d);
        if csd.len() > 0 && csd[0].0 == '.' {
            let csf = csd.skip(1);
            let f = run_end(csf, 0, false);
            float_finish(csf.skip(f), d + 1 + f, raw2 + seq!['.'] + chars_of(csf, 0, f))
        } else {
            int_finish(csd, d, raw2, radix)
        }
    }
}

proof fn lemma_float_finish_bounds(cs: Seq<CharAndLocation>, taken0: int, raw: Seq<char>)
    ensures
        taken0 <= float_finish(cs, taken0, raw).taken <= taken0 + cs.len(),
{
}

proof fn lemma_int_finish_bounds(cs: Seq<CharAndLocation>, taken0: int, raw: Seq<char>, radix: int)
    ensures
        taken0 <= int_finish(cs, taken0, raw, radix).taken <= taken0 + cs.len(),
{
}

/// How many units a numeric literal covers never exceeds the stream.
proof fn lemma_num_step_bounds(cs: Seq<CharAndLocation>, first: char)
    ensures
        0 <= num_step(cs, first).taken <= cs.len(),
{
    reveal(num_step);
    if first == '.' {
        let f = run_end(cs, 0, false);
        lemma_run_end_bounds(cs, 0, false);
        lemma_float_finish_bounds(cs.skip(f), f, seq!['.'] + chars_of(cs, 0, f));
    } else if first == '0' && cs.len() > 0 && (cs[0].0 == 'x' || cs[0].0 == 'X') {
        let csx = cs.skip(1);
        lemma_run_end_bounds(csx, 0, true);
        let h = run_end(csx, 0, true);
        let csh = csx.skip(h);
        lemma_run_end_bounds(csh, 0, false);
        let d = run_end(csh, 0, false);
        let csd = csh.skip(d);
        let raw = seq!['0'] + chars_of(csx, 0, h);
        let raw2 = raw + chars_of(csh, 0, d);
        if csd.len() > 0 && csd[0].0 == '.' {
            let csf = csd.skip(1);
            lemma_run_end_bounds(csf, 0, false);
            let f = run_end(csf, 0, false);
            lemma_float_finish_bounds(
                csf.skip(f),
                1 + h + d + 1 + f,
                raw2 + seq!['.'] + chars_of(csf, 0, f),
            );
        } else {
            lemma_int_finish_bounds(csd, 1 + h + d, raw2, 16);
        }
    } else {
        lemma_run_end_bounds(cs, 0, false);
        let d = run_end(cs, 0, false);
        let csd = cs.skip(d);
        let radix: int = if first == '0' && cs.len() > 0 && is_digit_char(cs[0].0) {
            8
        } else {
            10
        };
        let raw2 = seq![first] + chars_of(cs, 0, d);
        if csd.len() > 0 && csd[0].0 == '.' {
            let csf = csd.skip(1);
            lemma_run_end_bounds(csf, 0, false);
            let f = run_end(csf, 0, false);
            lemma_float_finish_bounds(csf.skip(f), d + 1 + f, raw2 + seq!['.'] + chars_of(csf, 0, f));
        } else {
            lemma_int_finish_bounds(csd, d, raw2, radix);
        }
    }
}

// ---------------------------------------------------------------------
// The token stream, as a function
// ---------------------------------------------------------------------

/// The whole remaining token stream of the lexer: `cs` is the
/// comment-stripped stream still to be read, `lw` and `sol` the
/// carried-over `leading_whitespace` and `start_of_line` flags, and
/// `last` the location of the last token's first character.  When the
/// characters run out and the stream is not at the start of a line, one
/// trailing `NewLine` is synthesized so every logical line is
/// newline-terminated.
#[verifier::opaque]
pub open spec fn lex_stream(
    cs: Seq<CharAndLocation>,
    lw: bool,
    sol: bool,
    last: Location,
) -> Seq<SpecLexerItem>
    decreases cs.len(),
    via lex_stream_decreases
{
    let p = ws_end(cs, 0);
    let lw1 = lw || p > 0;
    if p >= cs.len() {
        if sol {
            Seq::empty()
        } else {
            seq![
                Ok(
                    SpecToken {
                        value: SpecTokenValue::NewLine,
                        location: Location { line: last.line, pos: (last.pos + 1) as u32 },
                        leading_whitespace: lw1,
                        start_of_line: false,
                    },
                ),
            ]
        }
    } else {
        let cs1 = cs.skip(p);
        let c = cs1[0].0;
        let loc = cs1[0].1;
        if c == '\n' {
            seq![
                Ok(
                    SpecToken {
                        value: SpecTokenValue::NewLine,
                        location: loc,
                        leading_whitespace: lw1,
                        start_of_line: sol,
                    },
                ),
            ] + lex_stream(cs1.skip(1), true, true, loc)
        } else if is_ident_start(c) {
            let e = ident_end(cs1, 0);
            seq![
                Ok(
                    SpecToken {
                        value: SpecTokenValue::Ident(chars_of(cs1, 0, e)),
                        location: loc,
                        leading_whitespace: lw1,
                        start_of_line: sol,
                    },
                ),
            ] + lex_stream(cs1.skip(e), false, false, loc)
        } else if is_digit_char(c) {
            let n = num_step(cs1.skip(1), c);
            seq![num_item(n.res, loc, lw1, sol)] + lex_stream(
                cs1.skip(1).skip(n.taken),
                false,
                false,
                loc,
            )
        } else if c == '.' && cs1.len() >= 2 && is_digit_char(cs1[1].0) {
            let n = num_step(cs1.skip(1), '.');
            seq![num_item(n.res, loc, lw1, sol)] + lex_stream(
                cs1.skip(1).skip(n.taken),
                false,
                false,
                loc,
            )
        } else {
            let c1 = if cs1.len() >= 2 {
                cs1[1].0
            } else {
                '\0'
            };
            let c2 = if cs1.len() >= 3 {
                cs1[2].0
            } else {
                '\0'
            };
            match punct_of(c, c1, c2) {
                Some((pk, n)) => seq![
                    Ok(
                        SpecToken {
                            value: SpecTokenValue::Punct(pk),
                            location: loc,
                            leading_whitespace: lw1,
                            start_of_line: sol,
                        },
                    ),
                ] + lex_stream(cs1.skip(n), false, false, loc),
                None => if c == '#' {
                    seq![
                        Ok(
                            SpecToken {
                                value: SpecTokenValue::Hash,
                                location: loc,
                                leading_whitespace: lw1,
                                start_of_line: sol,
                            },
                        ),
                    ] + lex_stream(cs1.skip(1), false, false, loc)
                } else {
                    seq![
                        Err::<SpecToken, (PreprocessorError, Location)>(
                            (PreprocessorError::UnexpectedCharacter, loc),
                        ),
                    ] + lex_stream(cs1.skip(1), false, false, loc)
                },
            }
        }
    }
}

/// A numeric literal as a stream item: a token on success, the error
/// paired with the literal's start location on failure.
pub open spec fn num_item(
    res: Result<SpecTokenValue, PreprocessorError>,
    loc: Location,
    lw: bool,
    sol: bool,
) -> SpecLexerItem {
    match res {
        Ok(v) => Ok(
            SpecToken { value: v, location: loc, leading_whitespace: lw, start_of_line: sol },
        ),
        Err(e) => Err((e, loc)),
    }
}

#[via_fn]
proof fn lex_stream_decreases(cs: Seq<CharAndLocation>, lw: bool, sol: bool, last: Location) {
    lemma_ws_end_bounds(cs, 0);
    let p = ws_end(cs, 0);
    if p < cs.len() {
        let cs1 = cs.skip(p);
        let c = cs1[0].0;
        if c == '\n' {
        } else if is_ident_start(c) {
            assert(is_ident_char(cs1[0].0));
            assert(ident_end(cs1, 0) == ident_end(cs1, 1));
            lemma_ident_end_bounds(cs1, 1);
        } else if is_digit_char(c) {
            lemma_num_step_bounds(cs1.skip(1), c);
        } else if c == '.' && cs1.len() >= 2 && is_digit_char(cs1[1].0) {
            lemma_num_step_bounds(cs1.skip(1), '.');
        } else {
            let c1 = if cs1.len() >= 2 {
                cs1[1].0
            } else {
                '\0'
            };
            let c2 = if cs1.len() >= 3 {
                cs1[2].0
            } else {
                '\0'
            };
            match punct_of(c, c1, c2) {
                Some((pk, n)) => {
                    assert(1 <= n <= 3);
                    assert(n >= 2 ==> c1 != '\0');
                    assert(n >= 3 ==> c2 != '\0');
                    assert(n <= cs1.len());
                },
                None => {},
            }
        }
    }
}


impl ReplaceComments {
    /// Returns the head of `items()` without consuming it: the cursor is
    /// snapshotted, advanced, and restored.
    fn peek(&mut self) -> (r: Option<CharAndLocation>)
        requires
            old(self).wf(),
        ensures
            *final(self) == *old(self),
            old(self).items().len() > 0 ==> r == Some(old(self).items()[0]),
            old(self).items().len() == 0 ==> r is None,
    {
        let save_i = self.inner.inner.i;
        let save_loc = self.inner.inner.loc;
        let ghost snap = *self;
        let r = self.next();
        self.inner.inner.i = save_i;
        self.inner.inner.loc = save_loc;
        proof {
            assert(self.inner.inner.input == snap.inner.inner.input);
            assert(self.inner.inner == snap.inner.inner);
            assert(self.inner == snap.inner);
            assert(*self == snap);
        }
        r
    }
}

/// Relies on String::push: appends exactly the one character to the
/// string.
#[verifier::external_body]
fn push_char(s: &mut String, c: char)
    ensures
        final(s)@ == old(s)@.push(c),
{
    s.push(c);
}

/// Builds a string holding exactly the given characters.
fn string_from_chars(v: &Vec<char>) -> (s: String)
    ensures
        s@ == v@,
{
    let mut s = String::new();
    let mut i: usize = 0;
    while i < v.len()
        invariant
            i <= v@.len(),
            s@ == v@.take(i as int),
        decreases v@.len() - i,
    {
        push_char(&mut s, v[i]);
        proof {
            assert(v@.take(i as int + 1) =~= v@.take(i as int).push(v@[i as int]));
        }
        i = i + 1;
    }
    proof {
        assert(v@.take(v@.len() as int) =~= v@);
    }
    s
}

/// The value of one digit character in the given radix, or nothing when
/// it is not a valid digit there.
fn digit_value(c: char, radix: u64) -> (r: Option<u64>)
    requires
        radix == 8 || radix == 10 || radix == 16,
    ensures
        digit_ok(c, radix as int) ==> r == Some((digit_val(c) as u64)),
        !digit_ok(c, radix as int) ==> r is None,
{
    let u = c as u32;
    let d: u64 = if u >= '0' as u32 && u <= '9' as u32 {
        (u - '0' as u32) as u64
    } else if u >= 'a' as u32 && u <= 'f' as u32 {
        (u - 'a' as u32 + 10) as u64
    } else if u >= 'A' as u32 && u <= 'F' as u32 {
        (u - 'A' as u32 + 10) as u64
    } else {
        return None;
    };
    if d < radix {
        Some(d)
    } else {
        None
    }
}

/// 64-bit unsigned radix conversion of `ds[start..]`, by one
/// multiply-and-add per digit: the denoted value, or nothing when the
/// digit string is empty, holds an invalid digit, or overflows 64 bits.
fn u64_from_digits(ds: &Vec<char>, start: usize, radix: u64) -> (r: Option<u64>)
    requires
        radix == 8 || radix == 10 || radix == 16,
        start <= ds@.len(),
    ensures
        r == parse_u64_spec(ds@.skip(start as int), radix as int),
{
    let ghost dseq = ds@.skip(start as int);
    if start >= ds.len() {
        assert(!digits_ok(dseq, radix as int));
        return None;
    }
    let mut acc: u64 = 0;
    let mut i: usize = start;
    while i < ds.len()
        invariant
            radix == 8 || radix == 10 || radix == 16,
            start <= i <= ds@.len(),
            dseq == ds@.skip(start as int),
            forall|k: int| 0 <= k < i - start ==> #[trigger] digit_ok(dseq[k], radix as int),
            acc == digits_value(dseq.take(i - start), radix as int),
        decreases ds@.len() - i,
    {
        let ghost k = i - start;
        let d = match digit_value(ds[i], radix) {
            Some(d) => d,
            None => {
                proof {
                    assert(dseq[k] == ds@[i as int]);
                    assert(!digit_ok(dseq[k], radix as int));
                    assert(!digits_ok(dseq, radix as int));
                }
                return None;
            },
        };
        proof {
            assert(dseq[k] == ds@[i as int]);
            assert(dseq.take(k + 1) =~= dseq.take(k).push(dseq[k]));
            assert(dseq.take(k + 1).drop_last() =~= dseq.take(k));
        }
        let next = match acc.checked_mul(radix) {
            Some(m) => m.checked_add(d),
            None => None,
        };
        match next {
            Some(x) => {
                acc = x;
            },
            None => {
                proof {
                    assert(digits_value(dseq.take(k + 1), radix as int) == acc * (radix as int)
                        + digit_val(dseq[k]));
                    assert(digits_value(dseq.take(k + 1), radix as int) > u64::MAX);
                    if digits_ok(dseq, radix as int) {
                        lemma_digits_value_prefix(dseq, radix as int, k + 1);
                        assert(digits_value(dseq, radix as int) > u64::MAX);
                    }
                }
                return None;
            },
        }
        i = i + 1;
    }
    proof {
        assert(dseq.take(ds@.len() - start) =~= dseq);
        assert(digits_ok(dseq, radix as int));
    }
    Some(acc)
}

/// Stage 4: the lexer itself.  It pulls from the comment-stripped stream
/// and produces classified tokens with their adjacency metadata, plus the
/// structural `Hash` and `NewLine` tokens the preprocessor needs.  Its
/// whole remaining output is the [`lex_stream`] of the remaining
/// characters and the carried-over flags.
pub struct Lexer {
    inner: ReplaceComments,
    leading_whitespace: bool,
    start_of_line: bool,
    last_location: Location,
    had_comments: bool,
}

impl Lexer {
    pub closed spec fn wf(self) -> bool {
        &&& self.inner.wf()
        &&& (!self.start_of_line ==> self.last_location.pos < self.inner.pos_index())
    }

    /// The comment-stripped characters this lexer has not yet consumed.
    pub closed spec fn remaining_chars(self) -> Seq<CharAndLocation> {
        self.inner.items()
    }

    /// The token stream this lexer will still produce.
    pub closed spec fn stream(self) -> Seq<SpecLexerItem> {
        lex_stream(
            self.inner.items(),
            self.leading_whitespace,
            self.start_of_line,
            self.last_location,
        )
    }

    /// Whether a comment has been absorbed so far.
    pub closed spec fn comments_seen(self) -> bool {
        self.had_comments
    }

    pub fn new(input: &str) -> (r: Self)
        requires
            input@.len() <= max_input_len(),
        ensures
            r.wf(),
            r.remaining_chars() == strip_comments(splice(normalize(input@, start_location()))),
            r.stream() == lex_stream(
                strip_comments(splice(normalize(input@, start_location()))),
                true,
                true,
                Location { line: 0, pos: 0 },
            ),
            !r.comments_seen(),
    {
        Lexer {
            inner: ReplaceComments::new(input),
            leading_whitespace: true,
            start_of_line: true,
            last_location: Location { line: 0, pos: 0 },
            had_comments: false,
        }
    }

    /// Whether any comment has been stripped from the input so far: the
    /// preprocessor uses this to tell whitespace that came from real
    /// whitespace apart from whitespace that came from a comment.
    pub fn had_comments(&self) -> (r: bool)
        ensures
            r == self.comments_seen(),
    {
        self.had_comments
    }


    /// Absorbs horizontal whitespace and comment sentinels, recording
    /// leading whitespace and any sentinel seen; `start_of_line` and the
    /// last location are untouched.
    fn skip_whitespace(&mut self)
        requires
            old(self).inner.wf(),
        ensures
            final(self).inner.wf(),
            final(self).inner.buf() == old(self).inner.buf(),
            final(self).inner.cap() == old(self).inner.cap(),
            final(self).inner.pos_index() >= old(self).inner.pos_index(),
            final(self).inner.items() == old(self).inner.items().skip(
                ws_end(old(self).inner.items(), 0),
            ),
            final(self).leading_whitespace == (old(self).leading_whitespace || ws_end(
                old(self).inner.items(),
                0,
            ) > 0),
            final(self).start_of_line == old(self).start_of_line,
            final(self).last_location == old(self).last_location,
            final(self).had_comments == (old(self).had_comments || has_sentinel(
                old(self).inner.items(),
                ws_end(old(self).inner.items(), 0),
            )),
    {
        let ghost cs0 = self.inner.items();
        let ghost j: int = 0;
        loop
            invariant
                self.inner.wf(),
                self.inner.buf() == old(self).inner.buf(),
                self.inner.cap() == old(self).inner.cap(),
                self.inner.pos_index() >= old(self).inner.pos_index(),
                0 <= j <= cs0.len(),
                self.inner.items() =~= cs0.skip(j),
                ws_end(cs0, 0) == ws_end(cs0, j),
                self.leading_whitespace == (old(self).leading_whitespace || j > 0),
                self.start_of_line == old(self).start_of_line,
                self.last_location == old(self).last_location,
                self.had_comments == (old(self).had_comments || has_sentinel(cs0, j)),
            ensures
                self.inner.wf(),
                self.inner.buf() == old(self).inner.buf(),
                self.inner.cap() == old(self).inner.cap(),
                self.inner.pos_index() >= old(self).inner.pos_index(),
                j == ws_end(cs0, 0),
                self.inner.items() =~= cs0.skip(j),
                self.leading_whitespace == (old(self).leading_whitespace || j > 0),
                self.start_of_line == old(self).start_of_line,
                self.last_location == old(self).last_location,
                self.had_comments == (old(self).had_comments || has_sentinel(cs0, j)),
            decreases cs0.len() - j,
        {
            match self.inner.peek() {
                None => {
                    proof {
                        assert(j == cs0.len());
                        assert(ws_end(cs0, j) == j);
                    }
                    break ;
                },
                Some((c, _)) => {
                    if c == ' ' || c == '\t' || c == '\x0b' || c == '\x0c'
                        || c == COMMENT_SENTINEL_VALUE {
                        if c == COMMENT_SENTINEL_VALUE {
                            self.had_comments = true;
                        }
                        self.leading_whitespace = true;
                        let _ = self.inner.next();
                        proof {
                            assert(cs0[j].0 == c);
                            assert(is_hspace(c));
                            assert(ws_end(cs0, j) == ws_end(cs0, j + 1));
                            if c == COMMENT_SENTINEL_VALUE {
                                assert(has_sentinel(cs0, j + 1));
                            } else {
                                if has_sentinel(cs0, j + 1) {
                                    let k = choose|k: int|
                                        0 <= k < j + 1 && cs0[k].0 == COMMENT_SENTINEL_VALUE;
                                    assert(k < j);
                                    assert(has_sentinel(cs0, j));
                                }
                                if has_sentinel(cs0, j) {
                                    let k = choose|k: int|
                                        0 <= k < j && cs0[k].0 == COMMENT_SENTINEL_VALUE;
                                    assert(0 <= k < j + 1 && cs0[k].0 == COMMENT_SENTINEL_VALUE);
                                    assert(has_sentinel(cs0, j + 1));
                                }
                            }
                            j = j + 1;
                            assert(self.inner.items() =~= cs0.skip(j));
                        }
                    } else {
                        proof {
                            assert(cs0[j].0 == c);
                            assert(!is_hspace(c));
                            assert(ws_end(cs0, j) == j);
                        }
                        break ;
                    }
                },
            }
        }
    }

    /// Greedily consumes letters, digits and underscores into an
    /// identifier token.
    fn parse_identifier(&mut self) -> (r: Result<TokenValue, PreprocessorError>)
        requires
            old(self).inner.wf(),
            old(self).inner.items().len() > 0,
            is_ident_start(old(self).inner.items()[0].0),
        ensures
            final(self).inner.wf(),
            final(self).inner.buf() == old(self).inner.buf(),
            final(self).inner.cap() == old(self).inner.cap(),
            final(self).inner.pos_index() > old(self).inner.pos_index(),
            old(self).inner.items()[0].1.pos < final(self).inner.pos_index(),
            final(self).inner.items() == old(self).inner.items().skip(
                ident_end(old(self).inner.items(), 0),
            ),
            final(self).leading_whitespace == old(self).leading_whitespace,
            final(self).start_of_line == old(self).start_of_line,
            final(self).last_location == old(self).last_location,
            final(self).had_comments == old(self).had_comments,
            r matches Ok(tv) && tv@ == SpecTokenValue::Ident(
                chars_of(old(self).inner.items(), 0, ident_end(old(self).inner.items(), 0)),
            ),
    {
        let ghost cs0 = self.inner.items();
        let mut text = String::new();
        let ghost j: int = 0;
        loop
            invariant
                self.inner.wf(),
                self.inner.buf() == old(self).inner.buf(),
                self.inner.cap() == old(self).inner.cap(),
                cs0 == old(self).inner.items(),
                cs0.len() > 0 && is_ident_start(cs0[0].0),
                0 <= j <= cs0.len(),
                self.inner.items() =~= cs0.skip(j),
                ident_end(cs0, 0) == ident_end(cs0, j),
                text@ == chars_of(cs0, 0, j),
                self.inner.pos_index() >= old(self).inner.pos_index(),
                j >= 1 ==> self.inner.pos_index() > old(self).inner.pos_index() && cs0[0].1.pos
                    < self.inner.pos_index(),
                self.leading_whitespace == old(self).leading_whitespace,
                self.start_of_line == old(self).start_of_line,
                self.last_location == old(self).last_location,
                self.had_comments == old(self).had_comments,
            ensures
                self.inner.wf(),
                self.inner.buf() == old(self).inner.buf(),
                self.inner.cap() == old(self).inner.cap(),
                j == ident_end(cs0, 0),
                j >= 1,
                self.inner.items() =~= cs0.skip(j),
                text@ == chars_of(cs0, 0, j),
                self.inner.pos_index() > old(self).inner.pos_index(),
                cs0[0].1.pos < self.inner.pos_index(),
                self.leading_whitespace == old(self).leading_whitespace,
                self.start_of_line == old(self).start_of_line,
                self.last_location == old(self).last_location,
                self.had_comments == old(self).had_comments,
            decreases cs0.len() - j,
        {
            match self.inner.peek() {
                None => {
                    proof {
                        assert(j == cs0.len());
                        assert(ident_end(cs0, j) == j);
                        assert(j >= 1) by {
                            assert(is_ident_char(cs0[0].0));
                            assert(ident_end(cs0, 0) >= 1) by {
                                assert(ident_end(cs0, 0) == ident_end(cs0, 1));
                                lemma_ident_end_bounds(cs0, 1);
                            }
                        }
                    }
                    break ;
                },
                Some((c, _)) => {
                    if ch_is_ident_start(c) || ch_is_digit(c) {
                        let _ = self.inner.next();
                        push_char(&mut text, c);
                        proof {
                            assert(cs0[j].0 == c);
                            assert(is_ident_char(c));
                            assert(ident_end(cs0, j) == ident_end(cs0, j + 1));
                            assert(text@ =~= chars_of(cs0, 0, j + 1));
                            j = j + 1;
                            assert(self.inner.items() =~= cs0.skip(j));
                        }
                    } else {
                        proof {
                            assert(cs0[j].0 == c);
                            assert(!is_ident_char(c));
                            assert(ident_end(cs0, j) == j);
                            assert(j >= 1) by {
                                assert(is_ident_char(cs0[0].0));
                            }
                        }
                        break ;
                    }
                },
            }
        }
        Ok(TokenValue::Ident(text))
    }

    /// Consumes the run of decimal (or, with `hex`, hexadecimal) digits
    /// at the cursor, appending them to `out`.
    fn consume_chars(&mut self, hex: bool, out: &mut Vec<char>)
        requires
            old(self).inner.wf(),
        ensures
            final(self).inner.wf(),
            final(self).inner.buf() == old(self).inner.buf(),
            final(self).inner.cap() == old(self).inner.cap(),
            final(self).inner.pos_index() >= old(self).inner.pos_index(),
            final(self).inner.items() == old(self).inner.items().skip(
                run_end(old(self).inner.items(), 0, hex),
            ),
            final(out)@ == old(out)@ + chars_of(
                old(self).inner.items(),
                0,
                run_end(old(self).inner.items(), 0, hex),
            ),
            final(self).leading_whitespace == old(self).leading_whitespace,
            final(self).start_of_line == old(self).start_of_line,
            final(self).last_location == old(self).last_location,
            final(self).had_comments == old(self).had_comments,
    {
        let ghost cs0 = self.inner.items();
        let ghost j: int = 0;
        loop
            invariant
                self.inner.wf(),
                self.inner.buf() == old(self).inner.buf(),
                self.inner.cap() == old(self).inner.cap(),
                self.inner.pos_index() >= old(self).inner.pos_index(),
                cs0 == old(self).inner.items(),
                0 <= j <= cs0.len(),
                self.inner.items() =~= cs0.skip(j),
                run_end(cs0, 0, hex) == run_end(cs0, j, hex),
                out@ == old(out)@ + chars_of(cs0, 0, j),
                self.leading_whitespace == old(self).leading_whitespace,
                self.start_of_line == old(self).start_of_line,
                self.last_location == old(self).last_location,
                self.had_comments == old(self).had_comments,
            ensures
                self.inner.wf(),
                self.inner.buf() == old(self).inner.buf(),
                self.inner.cap() == old(self).inner.cap(),
                self.inner.pos_index() >= old(self).inner.pos_index(),
                j == run_end(cs0, 0, hex),
                self.inner.items() =~= cs0.skip(j),
                out@ == old(out)@ + chars_of(cs0, 0, j),
                self.leading_whitespace == old(self).leading_whitespace,
                self.start_of_line == old(self).start_of_line,
                self.last_location == old(self).last_location,
                self.had_comments == old(self).had_comments,
            decreases cs0.len() - j,
        {
            match self.inner.peek() {
                None => {
                    proof {
                        assert(j == cs0.len());
                        assert(run_end(cs0, j, hex) == j);
                    }
                    break ;
                },
                Some((c, _)) => {
                    let take = if hex {
                        ch_is_hex_digit(c)
                    } else {
                        ch_is_digit(c)
                    };
                    if take {
                        let _ = self.inner.next();
                        out.push(c);
                        proof {
                            assert(cs0[j].0 == c);
                            assert(run_end(cs0, j, hex) == run_end(cs0, j + 1, hex));
                            assert(out@ =~= old(out)@ + chars_of(cs0, 0, j + 1));
                            j = j + 1;
                            assert(self.inner.items() =~= cs0.skip(j));
                        }
                    } else {
                        proof {
                            assert(cs0[j].0 == c);
                            assert(run_end(cs0, j, hex) == j);
                        }
                        break ;
                    }
                },
            }
        }
    }

    /// Consumes an optional `u`/`U` suffix; the result is false (meaning
    /// unsigned) exactly when one was present.
    fn parse_integer_signedness_suffix(&mut self) -> (signed: bool)
        requires
            old(self).inner.wf(),
        ensures
            final(self).inner.wf(),
            final(self).inner.buf() == old(self).inner.buf(),
            final(self).inner.cap() == old(self).inner.cap(),
            final(self).inner.pos_index() >= old(self).inner.pos_index(),
            final(self).leading_whitespace == old(self).leading_whitespace,
            final(self).start_of_line == old(self).start_of_line,
            final(self).last_location == old(self).last_location,
            final(self).had_comments == old(self).had_comments,
            signed == !(old(self).inner.items().len() > 0 && (old(self).inner.items()[0].0 == 'u'
                || old(self).inner.items()[0].0 == 'U')),
            signed ==> *final(self) == *old(self),
            !signed ==> final(self).inner.items() == old(self).inner.items().skip(1),
    {
        let p = self.inner.peek();
        let is_u = match p {
            Some((c, _)) => c == 'u' || c == 'U',
            None => false,
        };
        if is_u {
            let _ = self.inner.next();
            false
        } else {
            true
        }
    }

    /// Rejects and consumes `l`/`L` and `s`/`S` integer width suffixes,
    /// so that lexing resumes after them; anything else is left in place
    /// and the width stays 32.
    fn parse_integer_width_suffix(&mut self) -> (r: Result<i32, PreprocessorError>)
        requires
            old(self).inner.wf(),
        ensures
            final(self).inner.wf(),
            final(self).inner.buf() == old(self).inner.buf(),
            final(self).inner.cap() == old(self).inner.cap(),
            final(self).inner.pos_index() >= old(self).inner.pos_index(),
            final(self).leading_whitespace == old(self).leading_whitespace,
            final(self).start_of_line == old(self).start_of_line,
            final(self).last_location == old(self).last_location,
            final(self).had_comments == old(self).had_comments,
            r == ({
                let cs = old(self).inner.items();
                if cs.len() > 0 && (cs[0].0 == 'l' || cs[0].0 == 'L') {
                    Err::<i32, PreprocessorError>(PreprocessorError::NotSupported64BitLiteral)
                } else if cs.len() > 0 && (cs[0].0 == 's' || cs[0].0 == 'S') {
                    Err::<i32, PreprocessorError>(PreprocessorError::NotSupported16BitLiteral)
                } else {
                    Ok::<i32, PreprocessorError>(32)
                }
            }),
            ({
                let cs = old(self).inner.items();
                if cs.len() > 0 && (cs[0].0 == 'l' || cs[0].0 == 'L' || cs[0].0 == 's' || cs[0].0
                    == 'S') {
                    final(self).inner.items() == cs.skip(1)
                } else {
                    *final(self) == *old(self)
                }
            }),
    {
        let p = self.inner.peek();
        let head = match p {
            Some((c, _)) => c,
            None => '\0',
        };
        if head == 'l' || head == 'L' {
            let _ = self.inner.next();
            Err(PreprocessorError::NotSupported64BitLiteral)
        } else if head == 's' || head == 'S' {
            let _ = self.inner.next();
            Err(PreprocessorError::NotSupported16BitLiteral)
        } else {
            Ok(32)
        }
    }

    /// Rejects and consumes `l`/`L` and `h`/`H` float width suffixes, so
    /// that lexing resumes after them; consumes an optional `f`/`F`; the
    /// width is always 32.
    fn parse_float_width_suffix(&mut self) -> (r: Result<i32, PreprocessorError>)
        requires
            old(self).inner.wf(),
        ensures
            final(self).inner.wf(),
            final(self).inner.buf() == old(self).inner.buf(),
            final(self).inner.cap() == old(self).inner.cap(),
            final(self).inner.pos_index() >= old(self).inner.pos_index(),
            final(self).leading_whitespace == old(self).leading_whitespace,
            final(self).start_of_line == old(self).start_of_line,
            final(self).last_location == old(self).last_location,
            final(self).had_comments == old(self).had_comments,
            r == ({
                let cs = old(self).inner.items();
                if cs.len() > 0 && (cs[0].0 == 'l' || cs[0].0 == 'L') {
                    Err::<i32, PreprocessorError>(PreprocessorError::NotSupported64BitLiteral)
                } else if cs.len() > 0 && (cs[0].0 == 'h' || cs[0].0 == 'H') {
                    Err::<i32, PreprocessorError>(PreprocessorError::NotSupported16BitLiteral)
                } else {
                    Ok::<i32, PreprocessorError>(32)
                }
            }),
            ({
                let cs = old(self).inner.items();
                if cs.len() > 0 && (cs[0].0 == 'l' || cs[0].0 == 'L' || cs[0].0 == 'h' || cs[0].0
                    == 'H' || cs[0].0 == 'f' || cs[0].0 == 'F') {
                    final(self).inner.items() == cs.skip(1)
                } else {
                    *final(self) == *old(self)
                }
            }),
    {
        let p = self.inner.peek();
        let head = match p {
            Some((c, _)) => c,
            None => '\0',
        };
        if head == 'l' || head == 'L' {
            let _ = self.inner.next();
            Err(PreprocessorError::NotSupported64BitLiteral)
        } else if head == 'h' || head == 'H' {
            let _ = self.inner.next();
            Err(PreprocessorError::NotSupported16BitLiteral)
        } else if head == 'f' || head == 'F' {
            let _ = self.inner.next();
            Ok(32)
        } else {
            Ok(32)
        }
    }
}



impl Lexer {
    /// Parses a numeric literal whose first character has already been
    /// consumed; the token value (or per-token lexical error) and the
    /// characters consumed are exactly those of [`num_step`].
    #[verifier::spinoff_prover]
    #[verifier::rlimit(100)]
    fn parse_number(&mut self, first_char: char) -> (r: Result<TokenValue, PreprocessorError>)
        requires
            old(self).inner.wf(),
        ensures
            final(self).inner.wf(),
            final(self).inner.buf() == old(self).inner.buf(),
            final(self).inner.cap() == old(self).inner.cap(),
            final(self).inner.pos_index() >= old(self).inner.pos_index(),
            final(self).inner.items() == old(self).inner.items().skip(
                num_step(old(self).inner.items(), first_char).taken,
            ),
            final(self).leading_whitespace == old(self).leading_whitespace,
            final(self).start_of_line == old(self).start_of_line,
            final(self).last_location == old(self).last_location,
            final(self).had_comments == old(self).had_comments,
            num_step(old(self).inner.items(), first_char).res matches Ok(v) ==> (r matches Ok(tv)
                && tv@ == v),
            num_step(old(self).inner.items(), first_char).res matches Err(e) ==> r == Err::<
                TokenValue,
                PreprocessorError,
            >(e),
    {
        let ghost cs0 = self.inner.items();
        let ghost n = num_step(cs0, first_char);
        let (is_float, integer_radix, raw) = self.scan_number(first_char);
        let ghost cur0 = self.inner.items();
        let ghost taken = cs0.len() - cur0.len();
        let ghost fnext = run_end(cur0, 0, false);
        if is_float {
            let r = self.finish_float(raw);
            proof {
                let out = float_finish(cur0.skip(fnext), fnext, raw@ + chars_of(cur0, 0, fnext));
                lemma_float_finish_shift(
                    cur0.skip(fnext),
                    taken + fnext,
                    fnext,
                    raw@ + chars_of(cur0, 0, fnext),
                );
                lemma_run_end_bounds(cur0, 0, false);
                lemma_float_finish_bounds(cur0.skip(fnext), fnext, raw@ + chars_of(cur0, 0, fnext));
                assert(n.taken == taken + out.taken);
                assert(cur0.skip(out.taken) =~= cs0.skip(n.taken));
            }
            r
        } else {
            let r = self.finish_integer(raw, integer_radix);
            proof {
                let out = int_finish(cur0, 0, raw@, integer_radix as int);
                lemma_int_finish_shift(cur0, taken, 0, raw@, integer_radix as int);
                lemma_int_finish_bounds(cur0, 0, raw@, integer_radix as int);
                assert(n.taken == taken + out.taken);
                assert(cur0.skip(out.taken) =~= cs0.skip(n.taken));
            }
            r
        }
    }

    /// Scans a numeric literal up to its fractional digits: radix
    /// selection (with the hexadecimal digits consumed), the integer
    /// digits, and the `.` that switches to float mode.  On return the
    /// literal finishes exactly as [`num_step`] says: by [`float_finish`]
    /// after the fractional digit run when `is_float`, by [`int_finish`]
    /// at the cursor otherwise.
    #[verifier::spinoff_prover]
    #[verifier::rlimit(100)]
    fn scan_number(&mut self, first_char: char) -> (out: (bool, u64, Vec<char>))
        requires
            old(self).inner.wf(),
        ensures
            final(self).inner.wf(),
            final(self).inner.buf() == old(self).inner.buf(),
            final(self).inner.cap() == old(self).inner.cap(),
            final(self).inner.pos_index() >= old(self).inner.pos_index(),
            final(self).leading_whitespace == old(self).leading_whitespace,
            final(self).start_of_line == old(self).start_of_line,
            final(self).last_location == old(self).last_location,
            final(self).had_comments == old(self).had_comments,
            out.1 == 8 || out.1 == 10 || out.1 == 16,
            out.2@.len() >= 1,
            ({
                let cs0 = old(self).inner.items();
                let cur0 = final(self).inner.items();
                let taken = cs0.len() - cur0.len();
                let fnext = run_end(cur0, 0, false);
                &&& cur0 == cs0.skip(taken)
                &&& 0 <= taken <= cs0.len()
                &&& (out.0 ==> num_step(cs0, first_char) == float_finish(
                    cur0.skip(fnext),
                    taken + fnext,
                    out.2@ + chars_of(cur0, 0, fnext),
                ))
                &&& (!out.0 ==> num_step(cs0, first_char) == int_finish(
                    cur0,
                    taken,
                    out.2@,
                    out.1 as int,
                ))
            }),
    {
        let ghost cs0 = self.inner.items();
        let ghost n = num_step(cs0, first_char);
        let mut is_float = false;
        let mut integer_radix: u64 = 10;
        let mut raw: Vec<char> = Vec::new();
        raw.push(first_char);
        // Ghost bookkeeping: `taken` units consumed so far, so that
        // `self.inner.items() == cs0.skip(taken)` throughout.
        let ghost mut taken: int = 0;
        proof {
            assert(raw@ =~= seq![first_char]);
        }

        // Handle hexadecimal numbers that need to consume a-f in addition
        // to digits; a `0` followed by another digit tentatively selects
        // radix 8 without consuming anything yet.
        let mut hex_mode = false;
        if first_char == '0' {
            let p = self.inner.peek();
            let head = match p {
                Some((c, _)) => c,
                None => '\0',
            };
            if head == 'x' || head == 'X' {
                let _ = self.inner.next();
                self.consume_chars(true, &mut raw);
                integer_radix = 16;
                hex_mode = true;
                proof {
                    let csx = cs0.skip(1);
                    let h = run_end(csx, 0, true);
                    lemma_run_end_bounds(csx, 0, true);
                    taken = 1 + h;
                    assert(self.inner.items() =~= cs0.skip(taken));
                    assert(raw@ =~= seq!['0'] + chars_of(csx, 0, h));
                }
            } else if ch_is_digit(head) {
                integer_radix = 8;
            }
        }
        let ghost radix_sel: int = integer_radix as int;

        if first_char != '.' {
            // Digits of an integer, or of the non-fractional part of a
            // float.
            let ghost before_digits = self.inner.items();
            let ghost raw_before = raw@;
            self.consume_chars(false, &mut raw);
            let ghost d = run_end(before_digits, 0, false);
            proof {
                lemma_run_end_bounds(before_digits, 0, false);
                taken = taken + d;
                assert(self.inner.items() =~= cs0.skip(taken));
                assert(raw@ == raw_before + chars_of(before_digits, 0, d));
            }
            let p2 = self.inner.peek();
            let dot = match p2 {
                Some((c, _)) => c == '.',
                None => false,
            };
            if dot {
                let _ = self.inner.next();
                raw.push('.');
                is_float = true;
                proof {
                    assert(raw@ =~= (raw_before + chars_of(before_digits, 0, d)) + seq!['.']);
                    taken = taken + 1;
                    assert(self.inner.items() =~= cs0.skip(taken));
                }
            }
        } else {
            is_float = true;
        }
        // Either an integer missing only suffixes, or a float with
        // everything up to the `.` consumed: check, case by case, that
        // the literal finishes exactly as `num_step` says.
        let ghost cur0 = self.inner.items();
        let ghost fnext = run_end(cur0, 0, false);
        proof {
            assert((is_float ==> n == float_finish(
                cur0.skip(fnext),
                taken + fnext,
                raw@ + chars_of(cur0, 0, fnext),
            )) && (!is_float ==> n == int_finish(cur0, taken, raw@, radix_sel))) by {
                reveal(num_step);
                assert(cur0 =~= cs0.skip(taken));
                if first_char == '.' {
                    let f = run_end(cs0, 0, false);
                    assert(n == float_finish(cs0.skip(f), f, seq!['.'] + chars_of(cs0, 0, f)));
                    assert(is_float && taken == 0);
                    assert(cur0 == cs0 && fnext == f);
                    assert(raw@ + chars_of(cur0, 0, fnext) =~= seq!['.'] + chars_of(cs0, 0, f));
                    assert(n == float_finish(
                        cur0.skip(fnext),
                        taken + fnext,
                        raw@ + chars_of(cur0, 0, fnext),
                    ));
                } else if hex_mode {
                    let csx = cs0.skip(1);
                    let h = run_end(csx, 0, true);
                    lemma_run_end_bounds(csx, 0, true);
                    let csh = csx.skip(h);
                    let d = run_end(csh, 0, false);
                    lemma_run_end_bounds(csh, 0, false);
                    let raw0 = seq!['0'] + chars_of(csx, 0, h);
                    let raw2 = raw0 + chars_of(csh, 0, d);
                    let csd = csh.skip(d);
                    assert(csh =~= cs0.skip(1 + h));
                    assert(csd =~= cs0.skip(1 + h + d));
                    if is_float {
                        assert(csd.len() > 0 && csd[0].0 == '.');
                        let csf = csd.skip(1);
                        let f = run_end(csf, 0, false);
                        assert(n == float_finish(
                            csf.skip(f),
                            1 + h + d + 1 + f,
                            raw2 + seq!['.'] + chars_of(csf, 0, f),
                        ));
                        assert(taken == 1 + h + d + 1);
                        assert(cur0 =~= csf);
                        assert(fnext == f);
                        assert(raw@ =~= raw2 + seq!['.']);
                        assert(raw@ + chars_of(cur0, 0, fnext) =~= raw2 + seq!['.'] + chars_of(
                            csf,
                            0,
                            f,
                        ));
                        assert(n == float_finish(
                            cur0.skip(fnext),
                            taken + fnext,
                            raw@ + chars_of(cur0, 0, fnext),
                        ));
                    } else {
                        assert(!(csd.len() > 0 && csd[0].0 == '.'));
                        assert(n == int_finish(csd, 1 + h + d, raw2, 16));
                        assert(taken == 1 + h + d);
                        assert(cur0 =~= csd);
                        assert(raw@ =~= raw2);
                        assert(n == int_finish(cur0, taken, raw@, radix_sel));
                    }
                } else {
                    let d = run_end(cs0, 0, false);
                    lemma_run_end_bounds(cs0, 0, false);
                    let raw2 = seq![first_char] + chars_of(cs0, 0, d);
                    let csd = cs0.skip(d);
                    if is_float {
                        assert(csd.len() > 0 && csd[0].0 == '.');
                        let csf = csd.skip(1);
                        let f = run_end(csf, 0, false);
                        assert(n == float_finish(
                            csf.skip(f),
                            d + 1 + f,
                            raw2 + seq!['.'] + chars_of(csf, 0, f),
                        ));
                        assert(taken == d + 1);
                        assert(cur0 =~= csf);
                        assert(fnext == f);
                        assert(raw@ =~= raw2 + seq!['.']);
                        assert(raw@ + chars_of(cur0, 0, fnext) =~= raw2 + seq!['.'] + chars_of(
                            csf,
                            0,
                            f,
                        ));
                        assert(n == float_finish(
                            cur0.skip(fnext),
                            taken + fnext,
                            raw@ + chars_of(cur0, 0, fnext),
                        ));
                    } else {
                        assert(!(csd.len() > 0 && csd[0].0 == '.'));
                        assert(n == int_finish(csd, d, raw2, radix_sel));
                        assert(taken == d);
                        assert(cur0 =~= csd);
                        assert(raw@ =~= raw2);
                        assert(n == int_finish(cur0, taken, raw@, radix_sel));
                    }
                }
            }
            assert(taken == cs0.len() - cur0.len());
        }
        (is_float, integer_radix, raw)
    }

    /// Consumes the fractional digits and the float width suffix, and
    /// builds the float token from the accumulated literal text; text
    /// that is not plain decimal syntax is a `FloatParsingError`.
    fn finish_float(&mut self, raw: Vec<char>) -> (r: Result<TokenValue, PreprocessorError>)
        requires
            old(self).inner.wf(),
        ensures
            final(self).inner.wf(),
            final(self).inner.buf() == old(self).inner.buf(),
            final(self).inner.cap() == old(self).inner.cap(),
            final(self).inner.pos_index() >= old(self).inner.pos_index(),
            final(self).leading_whitespace == old(self).leading_whitespace,
            final(self).start_of_line == old(self).start_of_line,
            final(self).last_location == old(self).last_location,
            final(self).had_comments == old(self).had_comments,
            ({
                let cs = old(self).inner.items();
                let f = run_end(cs, 0, false);
                let out = float_finish(cs.skip(f), f, raw@ + chars_of(cs, 0, f));
                &&& final(self).inner.items() == cs.skip(out.taken)
                &&& (out.res matches Ok(v) ==> r matches Ok(tv) && tv@ == v)
                &&& (out.res matches Err(e) ==> r == Err::<TokenValue, PreprocessorError>(e))
            }),
    {
        let ghost cs = self.inner.items();
        let mut raw = raw;
        self.consume_chars(false, &mut raw);
        let ghost f = run_end(cs, 0, false);
        proof {
            lemma_run_end_bounds(cs, 0, false);
        }
        let width = match self.parse_float_width_suffix() {
            Ok(w) => w,
            Err(e) => {
                proof {
                    assert(cs.skip(f).skip(1) =~= cs.skip(f + 1));
                }
                return Err(e);
            },
        };
        proof {
            let out = float_finish(cs.skip(f), f, raw@);
            if out.taken == f + 1 {
                assert(cs.skip(f).skip(1) =~= cs.skip(f + 1));
            }
            assert(self.inner.items() =~= cs.skip(out.taken));
        }
        if !Self::float_text_valid(&raw) {
            return Err(PreprocessorError::FloatParsingError);
        }
        let digits = string_from_chars(&raw);
        Ok(TokenValue::Float(Float { digits, width }))
    }

    /// Whether a float literal's text is plain decimal syntax, as
    /// [`float_text_ok`] states it.
    fn float_text_valid(raw: &Vec<char>) -> (b: bool)
        ensures
            b == float_text_ok(raw@),
    {
        let mut i: usize = 0;
        while i < raw.len()
            invariant
                i <= raw@.len(),
                forall|k: int|
                    0 <= k < i ==> is_digit_char(#[trigger] raw@[k]) || raw@[k] == '.',
            decreases raw@.len() - i,
        {
            let c = raw[i];
            if !(ch_is_digit(c) || c == '.') {
                proof {
                    assert(!(is_digit_char(raw@[i as int]) || raw@[i as int] == '.'));
                }
                return false;
            }
            i = i + 1;
        }
        true
    }

    /// Consumes the integer suffixes and converts the digits, stripping
    /// the radix-selecting leading `0` of octal and hexadecimal literals
    /// (for hexadecimal the `x` was never recorded).
    fn finish_integer(&mut self, raw: Vec<char>, integer_radix: u64) -> (r: Result<
        TokenValue,
        PreprocessorError,
    >)
        requires
            old(self).inner.wf(),
            integer_radix == 8 || integer_radix == 10 || integer_radix == 16,
            raw@.len() >= 1,
        ensures
            final(self).inner.wf(),
            final(self).inner.buf() == old(self).inner.buf(),
            final(self).inner.cap() == old(self).inner.cap(),
            final(self).inner.pos_index() >= old(self).inner.pos_index(),
            final(self).leading_whitespace == old(self).leading_whitespace,
            final(self).start_of_line == old(self).start_of_line,
            final(self).last_location == old(self).last_location,
            final(self).had_comments == old(self).had_comments,
            ({
                let cs = old(self).inner.items();
                let out = int_finish(cs, 0, raw@, integer_radix as int);
                &&& final(self).inner.items() == cs.skip(out.taken)
                &&& (out.res matches Ok(v) ==> r matches Ok(tv) && tv@ == v)
                &&& (out.res matches Err(e) ==> r == Err::<TokenValue, PreprocessorError>(e))
            }),
    {
        let ghost cs = self.inner.items();
        let signed = self.parse_integer_signedness_suffix();
        let width = match self.parse_integer_width_suffix() {
            Ok(w) => w,
            Err(e) => {
                proof {
                    if !signed {
                        assert(cs.skip(1).skip(1) =~= cs.skip(2));
                    }
                }
                return Err(e);
            },
        };
        let start: usize = if integer_radix != 10 {
            1
        } else {
            0
        };
        proof {
            if !signed {
                assert(cs.skip(1) == self.inner.items());
            }
            if integer_radix != 10 {
                assert(raw@.skip(1) == raw@.skip(start as int));
            } else {
                assert(raw@.skip(0) =~= raw@);
            }
        }
        match u64_from_digits(&raw, start, integer_radix) {
            Some(value) => Ok(TokenValue::Integer(Integer { value, signed, width })),
            None => Err(PreprocessorError::IntegerOverflow),
        }
    }
}

proof fn lemma_float_finish_shift(cs: Seq<CharAndLocation>, a: int, b: int, raw: Seq<char>)
    ensures
        float_finish(cs, a, raw).res == float_finish(cs, b, raw).res,
        float_finish(cs, a, raw).taken - a == float_finish(cs, b, raw).taken - b,
{
}

proof fn lemma_int_finish_shift(cs: Seq<CharAndLocation>, a: int, b: int, raw: Seq<char>, radix: int)
    ensures
        int_finish(cs, a, raw, radix).res == int_finish(cs, b, raw, radix).res,
        int_finish(cs, a, raw, radix).taken - a == int_finish(cs, b, raw, radix).taken - b,
{
}


impl Lexer {
    /// Maximal-munch punctuation matching over up to three characters of
    /// lookahead: the longest symbol of the priority table is matched and
    /// consumed; a `#` not matched as punctuation becomes the structural
    /// `Hash` token; anything else is an `UnexpectedCharacter` error that
    /// consumes exactly the offending character.
    #[verifier::spinoff_prover]
    #[verifier::rlimit(100)]
    fn parse_punctuation(&mut self) -> (r: Result<TokenValue, PreprocessorError>)
        requires
            old(self).inner.wf(),
            old(self).inner.items().len() > 0,
        ensures
            final(self).inner.wf(),
            final(self).inner.buf() == old(self).inner.buf(),
            final(self).inner.cap() == old(self).inner.cap(),
            final(self).inner.pos_index() > old(self).inner.pos_index(),
            old(self).inner.items()[0].1.pos < final(self).inner.pos_index(),
            final(self).leading_whitespace == old(self).leading_whitespace,
            final(self).start_of_line == old(self).start_of_line,
            final(self).last_location == old(self).last_location,
            final(self).had_comments == old(self).had_comments,
            ({
                let cs0 = old(self).inner.items();
                let c0 = cs0[0].0;
                let c1 = if cs0.len() >= 2 {
                    cs0[1].0
                } else {
                    '\0'
                };
                let c2 = if cs0.len() >= 3 {
                    cs0[2].0
                } else {
                    '\0'
                };
                match punct_of(c0, c1, c2) {
                    Some((pk, sz)) => r == Ok::<TokenValue, PreprocessorError>(
                        TokenValue::Punct(pk),
                    ) && final(self).inner.items() == cs0.skip(sz),
                    None => if c0 == '#' {
                        r == Ok::<TokenValue, PreprocessorError>(TokenValue::Hash)
                            && final(self).inner.items() == cs0.skip(1)
                    } else {
                        r == Err::<TokenValue, PreprocessorError>(
                            PreprocessorError::UnexpectedCharacter,
                        ) && final(self).inner.items() == cs0.skip(1)
                    },
                }
            }),
    {
        let ghost cs0 = self.inner.items();
        let save_i = self.inner.inner.inner.i;
        let save_loc = self.inner.inner.inner.loc;
        let ghost snap = self.inner;
        let char0 = match self.inner.next() {
            Some((c, _)) => c,
            None => '\0',
        };
        let char1 = match self.inner.next() {
            Some((c, _)) => c,
            None => '\0',
        };
        let char2 = match self.inner.next() {
            Some((c, _)) => c,
            None => '\0',
        };
        proof {
            assert(char0 == cs0[0].0);
            if cs0.len() >= 2 {
                assert(cs0.skip(1)[0] == cs0[1]);
            } else {
                assert(cs0.skip(1).len() == 0);
            }
            if cs0.len() >= 3 {
                assert(cs0.skip(1).skip(1)[0] == cs0[2]);
            }
            assert(char1 == (if cs0.len() >= 2 { cs0[1].0 } else { '\0' }) || (cs0.len() >= 2
                && cs0[1].0 == '\0'));
        }
        // Restore the cursor to the save point before committing to a
        // match length.
        self.inner.inner.inner.i = save_i;
        self.inner.inner.inner.loc = save_loc;
        proof {
            assert(self.inner.inner.inner.input == snap.inner.inner.input);
            assert(self.inner.inner.inner == snap.inner.inner);
            assert(self.inner.inner == snap.inner);
            assert(self.inner == snap);
        }
        let maybe_punct: Option<(Punct, usize)> = if char0 == '<' && char1 == '<' && char2 == '=' {
            Some((Punct::LeftShiftAssign, 3))
        } else if char0 == '<' && char1 == '<' {
            Some((Punct::LeftShift, 2))
        } else if char0 == '<' && char1 == '=' {
            Some((Punct::LessEqual, 2))
        } else if char0 == '<' {
            Some((Punct::LeftAngle, 1))
        } else if char0 == '>' && char1 == '>' && char2 == '=' {
            Some((Punct::RightShiftAssign, 3))
        } else if char0 == '>' && char1 == '>' {
            Some((Punct::RightShift, 2))
        } else if char0 == '>' && char1 == '=' {
            Some((Punct::GreaterEqual, 2))
        } else if char0 == '>' {
            Some((Punct::RightAngle, 1))
        } else if char0 == '+' && char1 == '+' {
            Some((Punct::Increment, 2))
        } else if char0 == '+' && char1 == '=' {
            Some((Punct::AddAssign, 2))
        } else if char0 == '+' {
            Some((Punct::Plus, 1))
        } else if char0 == '-' && char1 == '-' {
            Some((Punct::Decrement, 2))
        } else if char0 == '-' && char1 == '=' {
            Some((Punct::SubAssign, 2))
        } else if char0 == '-' {
            Some((Punct::Minus, 1))
        } else if char0 == '&' && char1 == '&' {
            Some((Punct::LogicalAnd, 2))
        } else if char0 == '&' && char1 == '=' {
            Some((Punct::AndAssign, 2))
        } else if char0 == '&' {
            Some((Punct::Ampersand, 1))
        } else if char0 == '|' && char1 == '|' {
            Some((Punct::LogicalOr, 2))
        } else if char0 == '|' && char1 == '=' {
            Some((Punct::OrAssign, 2))
        } else if char0 == '|' {
            Some((Punct::Pipe, 1))
        } else if char0 == '^' && char1 == '^' {
            Some((Punct::LogicalXor, 2))
        } else if char0 == '^' && char1 == '=' {
            Some((Punct::XorAssign, 2))
        } else if char0 == '^' {
            Some((Punct::Caret, 1))
        } else if char0 == '=' && char1 == '=' {
            Some((Punct::EqualEqual, 2))
        } else if char0 == '=' {
            Some((Punct::Equal, 1))
        } else if char0 == '!' && char1 == '=' {
            Some((Punct::NotEqual, 2))
        } else if char0 == '!' {
            Some((Punct::Bang, 1))
        } else if char0 == '*' && char1 == '=' {
            Some((Punct::MulAssign, 2))
        } else if char0 == '*' {
            Some((Punct::Star, 1))
        } else if char0 == '/' && char1 == '=' {
            Some((Punct::DivAssign, 2))
        } else if char0 == '/' {
            Some((Punct::Slash, 1))
        } else if char0 == '%' && char1 == '=' {
            Some((Punct::ModAssign, 2))
        } else if char0 == '%' {
            Some((Punct::Percent, 1))
        } else if char0 == '(' {
            Some((Punct::LeftParen, 1))
        } else if char0 == ')' {
            Some((Punct::RightParen, 1))
        } else if char0 == '{' {
            Some((Punct::LeftBrace, 1))
        } else if char0 == '}' {
            Some((Punct::RightBrace, 1))
        } else if char0 == '[' {
            Some((Punct::LeftBracket, 1))
        } else if char0 == ']' {
            Some((Punct::RightBracket, 1))
        } else if char0 == '.' {
            Some((Punct::Dot, 1))
        } else if char0 == ',' {
            Some((Punct::Comma, 1))
        } else if char0 == ';' {
            Some((Punct::Semicolon, 1))
        } else if char0 == ':' {
            Some((Punct::Colon, 1))
        } else if char0 == '~' {
            Some((Punct::Tilde, 1))
        } else if char0 == '?' {
            Some((Punct::Question, 1))
        } else {
            None
        };
        match maybe_punct {
            Some((punct, size)) => {
                let _ = self.inner.next();
                proof {
                    assert(self.inner.items() =~= cs0.skip(1));
                }
                if size >= 2 {
                    let _ = self.inner.next();
                    proof {
                        assert(cs0.len() >= 2);
                        assert(self.inner.items() =~= cs0.skip(2));
                    }
                }
                if size >= 3 {
                    let _ = self.inner.next();
                    proof {
                        assert(cs0.len() >= 3);
                        assert(self.inner.items() =~= cs0.skip(3));
                    }
                }
                Ok(punct.into())
            },
            None => {
                if char0 == '#' {
                    let _ = self.inner.next();
                    proof {
                        assert(self.inner.items() =~= cs0.skip(1));
                    }
                    Ok(TokenValue::Hash)
                } else {
                    let _ = self.inner.next();
                    proof {
                        assert(self.inner.items() =~= cs0.skip(1));
                    }
                    Err(PreprocessorError::UnexpectedCharacter)
                }
            },
        }
    }
}


impl Lexer {
    /// Pops the head of `stream()`: the next classified token, or the
    /// next lexical error, of the input.  Whitespace and comments are
    /// absorbed into the token's metadata; at the end of the input one
    /// `NewLine` is synthesized when the last line was unterminated, and
    /// after that the stream ends.
    #[verifier::spinoff_prover]
    #[verifier::rlimit(100)]
    pub fn next(&mut self) -> (r: Option<LexerItem>)
        requires
            old(self).wf(),
        ensures
            final(self).wf(),
            old(self).stream().len() == 0 ==> r is None && final(self).stream() == old(
                self,
            ).stream(),
            old(self).stream().len() > 0 ==> {
                &&& r matches Some(it) && item_view(it) == old(self).stream()[0]
                &&& final(self).stream() == old(self).stream().skip(1)
            },
            final(self).comments_seen() == (old(self).comments_seen() || has_sentinel(
                old(self).remaining_chars(),
                ws_end(old(self).remaining_chars(), 0),
            )),
    {
        let ghost cs0 = self.inner.items();
        let ghost lw0 = self.leading_whitespace;
        let ghost sol0 = self.start_of_line;
        let ghost last0 = self.last_location;
        let ghost stream0 = self.stream();
        proof {
            lemma_ws_end_bounds(cs0, 0);
        }
        self.skip_whitespace();
        let ghost p = ws_end(cs0, 0);
        let ghost cs1 = cs0.skip(p);
        let ghost lw1 = lw0 || p > 0;
        let pk = self.inner.peek();
        match pk {
            None => {
                proof {
                    assert(cs1.len() == 0);
                    assert(p == cs0.len());
                }
                if !self.start_of_line {
                    proof {
                        assert(last0.pos < self.inner.pos_index());
                        assert(self.inner.pos_index() <= self.inner.cap());
                    }
                    self.start_of_line = true;
                    let loc = Location {
                        line: self.last_location.line,
                        pos: self.last_location.pos + 1,
                    };
                    self.last_location = loc;
                    let tok = Token {
                        value: TokenValue::NewLine,
                        location: loc,
                        leading_whitespace: self.leading_whitespace,
                        start_of_line: false,
                    };
                    proof {
                        assert(stream0 =~= seq![item_view(Ok(tok))] && lex_stream(
                            self.inner.items(),
                            self.leading_whitespace,
                            self.start_of_line,
                            self.last_location,
                        ) =~= Seq::<SpecLexerItem>::empty()) by {
                            reveal(lex_stream);
                            assert(ws_end(self.inner.items(), 0) == 0);
                        }
                        assert(stream0.skip(1) =~= lex_stream(
                            self.inner.items(),
                            self.leading_whitespace,
                            self.start_of_line,
                            self.last_location,
                        ));
                    }
                    Some(Ok(tok))
                } else {
                    proof {
                        assert(stream0 =~= Seq::<SpecLexerItem>::empty() && lex_stream(
                            self.inner.items(),
                            self.leading_whitespace,
                            self.start_of_line,
                            self.last_location,
                        ) =~= Seq::<SpecLexerItem>::empty()) by {
                            reveal(lex_stream);
                            assert(ws_end(self.inner.items(), 0) == 0);
                        }
                    }
                    None
                }
            },
            Some((c, loc)) => {
                proof {
                    assert(p < cs0.len());
                    assert(cs1[0] == (c, loc));
                }
                let had_lw = self.leading_whitespace;
                let was_sol = self.start_of_line;
                self.leading_whitespace = false;
                self.start_of_line = false;
                let value: Result<TokenValue, PreprocessorError>;
                if c == '\n' {
                    let _ = self.inner.next();
                    self.leading_whitespace = true;
                    self.start_of_line = true;
                    value = Ok(TokenValue::NewLine);
                    proof {
                        assert(self.inner.items() =~= cs1.skip(1));
                    }
                } else if ch_is_ident_start(c) {
                    value = self.parse_identifier();
                } else if ch_is_digit(c) {
                    let _ = self.inner.next();
                    proof {
                        assert(self.inner.items() =~= cs1.skip(1));
                    }
                    value = self.parse_number(c);
                } else if c == '.' {
                    let _ = self.inner.next();
                    proof {
                        assert(self.inner.items() =~= cs1.skip(1));
                    }
                    let p2 = self.inner.peek();
                    let next_digit = match p2 {
                        Some((d, _)) => ch_is_digit(d),
                        None => false,
                    };
                    proof {
                        if cs1.len() >= 2 {
                            assert(cs1.skip(1)[0] == cs1[1]);
                        }
                    }
                    if next_digit {
                        value = self.parse_number('.');
                    } else {
                        value = Ok(TokenValue::Punct(Punct::Dot));
                    }
                } else {
                    value = self.parse_punctuation();
                }
                self.last_location = loc;
                let item: LexerItem = match value {
                    Ok(v) => Ok(
                        Token {
                            value: v,
                            location: loc,
                            leading_whitespace: had_lw,
                            start_of_line: was_sol,
                        },
                    ),
                    Err(e) => Err((e, loc)),
                };
                proof {
                    assert(stream0 == seq![item_view(item)] + lex_stream(
                        self.inner.items(),
                        self.leading_whitespace,
                        self.start_of_line,
                        self.last_location,
                    )) by {
                        reveal(lex_stream);
                    }
                    assert(stream0.skip(1) =~= lex_stream(
                        self.inner.items(),
                        self.leading_whitespace,
                        self.start_of_line,
                        self.last_location,
                    ));
                    assert(stream0[0] == item_view(item));
                }
                Some(item)
            },
        }
    }
}


/// The number of newline sequences (`CRLF`, `LFCR`, lone `CR`, lone `LF`)
/// in raw text.
pub open spec fn newline_seq_count(s: Seq<char>) -> int
    decreases s.len(),
{
    if s.len() <= 0 {
        0
    } else if s[0] == '\n' || s[0] == '\r' {
        let step: int = if s.len() >= 2 && is_newline_pair(s[0], s[1]) {
            2
        } else {
            1
        };
        1 + newline_seq_count(s.skip(step))
    } else {
        newline_seq_count(s.skip(1))
    }
}

/// The number of logical newlines in a normalized stream.
pub open spec fn emitted_newline_count(items: Seq<CharAndLocation>) -> int
    decreases items.len(),
{
    if items.len() <= 0 {
        0
    } else {
        (if items[0].0 == '\n' {
            1int
        } else {
            0
        }) + emitted_newline_count(items.skip(1))
    }
}

/// Newline canonicalization is faithful: every `CRLF`/`LFCR` pair and
/// every lone `CR` or `LF` in the raw text yields exactly one logical
/// newline, and the line counter increments exactly once per logical
/// newline — the line of the `k`-th emitted unit is the starting line
/// plus the number of newlines emitted before it.
pub proof fn lemma_newline_normalization(s: Seq<char>, loc: Location)
    requires
        loc.line + s.len() <= u32::MAX,
    ensures
        emitted_newline_count(normalize(s, loc)) == newline_seq_count(s),
        forall|k: int|
            0 <= k < normalize(s, loc).len() ==> (#[trigger] normalize(s, loc)[k]).1.line
                == loc.line + emitted_newline_count(normalize(s, loc).take(k)),
    decreases s.len(),
{
    let out = normalize(s, loc);
    if s.len() <= 0 {
    } else {
        let is_nl = s[0] == '\n' || s[0] == '\r';
        let step: int = if is_nl {
            if s.len() >= 2 && is_newline_pair(s[0], s[1]) {
                2
            } else {
                1
            }
        } else {
            1
        };
        let loc2 = if is_nl {
            Location { line: (loc.line + 1) as u32, pos: 0 }
        } else {
            Location { line: loc.line, pos: (loc.pos + 1) as u32 }
        };
        let tail = normalize(s.skip(step), loc2);
        lemma_newline_normalization(s.skip(step), loc2);
        assert(out.skip(1) =~= tail);
        assert(emitted_newline_count(out) == (if out[0].0 == '\n' {
            1int
        } else {
            0
        }) + emitted_newline_count(tail));
        assert forall|k: int| 0 <= k < out.len() implies (#[trigger] out[k]).1.line == loc.line
            + emitted_newline_count(out.take(k)) by {
            if k == 0 {
                assert(out.take(0) =~= Seq::<CharAndLocation>::empty());
            } else {
                assert(out[k] == tail[k - 1]);
                assert(tail[k - 1].1.line == loc2.line + emitted_newline_count(
                    tail.take(k - 1),
                ));
                assert(out.take(k) =~= seq![out[0]] + tail.take(k - 1));
                assert((seq![out[0]] + tail.take(k - 1)).skip(1) =~= tail.take(k - 1));
                assert(emitted_newline_count(out.take(k)) == (if out[0].0 == '\n' {
                    1int
                } else {
                    0
                }) + emitted_newline_count(tail.take(k - 1)));
            }
        }
    }
}

} // verus!
