//! The piece-table engine.
//!
//! A document is represented by two append-only character buffers — the
//! `original` buffer, filled once at construction, and the `added` buffer,
//! which receives all inserted text — together with an ordered list of
//! pieces, each addressing one contiguous run within one buffer.
//! Concatenating the runs in piece order yields the current document.
//! Undo and redo replay snapshots of the piece list alone, which is sound
//! because buffer contents, once written, are never changed.

use vstd::prelude::*;

verus! {

/// Which buffer a piece addresses.
#[derive(Clone, Copy, PartialEq, Eq, Structural, Debug)]
pub enum Source {
    Original,
    Added,
}

/// One contiguous run of `length` characters starting at `start` within the
/// buffer named by `source`.
#[derive(Clone, Copy, PartialEq, Eq, Structural, Debug)]
pub struct Piece {
    pub source: Source,
    pub start: usize,
    pub length: usize,
}

/// Error returned when an insertion position lies beyond the end of the
/// document.
#[derive(Clone, Copy, PartialEq, Eq, Structural, Debug)]
pub struct OutOfBounds;

/// The buffer a piece with source `source` addresses.
pub open spec fn buf_of(source: Source, orig: Seq<char>, added: Seq<char>) -> Seq<char> {
    match source {
        Source::Original => orig,
        Source::Added => added,
    }
}

/// A piece is well formed when it is non-empty and lies within its buffer.
pub open spec fn piece_ok(p: Piece, orig: Seq<char>, added: Seq<char>) -> bool {
    &&& p.length > 0
    &&& p.start + p.length <= buf_of(p.source, orig, added).len()
}

pub open spec fn pieces_ok(ps: Seq<Piece>, orig: Seq<char>, added: Seq<char>) -> bool {
    forall|i: int| 0 <= i < ps.len() ==> piece_ok(#[trigger] ps[i], orig, added)
}

/// The run of characters a piece addresses.
pub open spec fn piece_text(p: Piece, orig: Seq<char>, added: Seq<char>) -> Seq<char> {
    buf_of(p.source, orig, added).subrange(p.start as int, p.start + p.length)
}

/// The document a piece list reconstructs: the concatenation, in order, of
/// the text of each piece.
pub open spec fn doc_of(ps: Seq<Piece>, orig: Seq<char>, added: Seq<char>) -> Seq<char>
    decreases ps.len(),
{
    if ps.len() == 0 {
        Seq::empty()
    } else {
        piece_text(ps[0], orig, added) + doc_of(ps.drop_first(), orig, added)
    }
}

/// Sum of the lengths of a piece list.
pub open spec fn sum_lengths(ps: Seq<Piece>) -> nat
    decreases ps.len(),
{
    if ps.len() == 0 {
        0
    } else {
        (ps[0].length + sum_lengths(ps.drop_first())) as nat
    }
}

/// `content` spliced into `doc` at `position`: what an insertion yields.
pub open spec fn spliced_in(doc: Seq<char>, content: Seq<char>, position: int) -> Seq<char> {
    doc.subrange(0, position) + content + doc.subrange(position, doc.len() as int)
}

/// `doc` with the character at `position` removed: what a deletion yields.
pub open spec fn spliced_out(doc: Seq<char>, position: int) -> Seq<char> {
    doc.subrange(0, position) + doc.subrange(position + 1, doc.len() as int)
}

/// The snapshot history after a completed edit: the snapshots that could
/// have been redone are discarded, and the edited document becomes the
/// newest snapshot.
pub open spec fn history_after_edit(h: Seq<Seq<char>>, at: int, d: Seq<char>) -> Seq<Seq<char>> {
    h.subrange(0, at + 1).push(d)
}

/// Splicing into a document of three chunks, at offset `local` within the
/// middle chunk, splits that chunk around the content.
proof fn lemma_spliced_in_chunks(
    a: Seq<char>,
    b: Seq<char>,
    c: Seq<char>,
    content: Seq<char>,
    local: int,
)
    requires
        0 <= local <= b.len(),
    ensures
        spliced_in(a + b + c, content, a.len() + local) == a + b.subrange(0, local) + content
            + b.subrange(local, b.len() as int) + c,
{
    let doc = a + b + c;
    let pos = a.len() + local;
    assert(doc.subrange(0, pos as int) =~= a + b.subrange(0, local));
    assert(doc.subrange(pos as int, doc.len() as int) =~= b.subrange(local, b.len() as int) + c);
    assert((a + b.subrange(0, local)) + content + (b.subrange(local, b.len() as int) + c) =~= a
        + b.subrange(0, local) + content + b.subrange(local, b.len() as int) + c);
}

/// Removing the character at offset `local` within the middle of three
/// chunks splits that chunk around the removed character.
proof fn lemma_spliced_out_chunks(a: Seq<char>, b: Seq<char>, c: Seq<char>, local: int)
    requires
        0 <= local < b.len(),
    ensures
        spliced_out(a + b + c, a.len() + local) == a + b.subrange(0, local) + b.subrange(
            local + 1,
            b.len() as int,
        ) + c,
{
    let doc = a + b + c;
    let pos = a.len() + local;
    assert(doc.subrange(0, pos as int) =~= a + b.subrange(0, local));
    assert(doc.subrange(pos + 1, doc.len() as int) =~= b.subrange(local + 1, b.len() as int) + c);
    assert((a + b.subrange(0, local)) + (b.subrange(local + 1, b.len() as int) + c) =~= a
        + b.subrange(0, local) + b.subrange(local + 1, b.len() as int) + c);
}

/// A well-formed piece list has no more pieces than it has characters, since
/// every piece is non-empty.
proof fn lemma_count_le_len(ps: Seq<Piece>, orig: Seq<char>, added: Seq<char>)
    requires
        pieces_ok(ps, orig, added),
    ensures
        ps.len() <= doc_of(ps, orig, added).len(),
    decreases ps.len(),
{
    if ps.len() > 0 {
        assert(piece_ok(ps[0], orig, added));
        lemma_count_le_len(ps.drop_first(), orig, added);
    }
}

/// A single piece reconstructs exactly its text.
pub proof fn lemma_doc_of_singleton(p: Piece, orig: Seq<char>, added: Seq<char>)
    ensures
        doc_of(seq![p], orig, added) == piece_text(p, orig, added),
{
    let ps = seq![p];
    assert(ps.drop_first() =~= Seq::<Piece>::empty());
    assert(doc_of(ps.drop_first(), orig, added) =~= Seq::<char>::empty());
    assert(doc_of(ps, orig, added) =~= piece_text(p, orig, added));
}

/// Reconstruction distributes over concatenation of piece lists.
pub proof fn lemma_doc_of_concat(a: Seq<Piece>, b: Seq<Piece>, orig: Seq<char>, added: Seq<char>)
    ensures
        doc_of(a + b, orig, added) == doc_of(a, orig, added) + doc_of(b, orig, added),
    decreases a.len(),
{
    if a.len() == 0 {
        assert(a + b =~= b);
        assert(doc_of(a, orig, added) + doc_of(b, orig, added) =~= doc_of(b, orig, added));
    } else {
        assert((a + b)[0] == a[0]);
        assert((a + b).drop_first() =~= a.drop_first() + b);
        lemma_doc_of_concat(a.drop_first(), b, orig, added);
        assert(piece_text(a[0], orig, added) + (doc_of(a.drop_first(), orig, added) + doc_of(
            b,
            orig,
            added,
        )) =~= (piece_text(a[0], orig, added) + doc_of(a.drop_first(), orig, added)) + doc_of(
            b,
            orig,
            added,
        ));
    }
}

/// A piece list reconstructs the concatenation of what its two halves
/// reconstruct.
pub proof fn lemma_doc_of_split(ps: Seq<Piece>, i: int, orig: Seq<char>, added: Seq<char>)
    requires
        0 <= i <= ps.len(),
    ensures
        doc_of(ps, orig, added) == doc_of(ps.subrange(0, i), orig, added) + doc_of(
            ps.subrange(i, ps.len() as int),
            orig,
            added,
        ),
{
    assert(ps =~= ps.subrange(0, i) + ps.subrange(i, ps.len() as int));
    lemma_doc_of_concat(ps.subrange(0, i), ps.subrange(i, ps.len() as int), orig, added);
}

/// The reconstructed document is as long as the piece lengths say.
pub proof fn lemma_doc_of_len(ps: Seq<Piece>, orig: Seq<char>, added: Seq<char>)
    requires
        pieces_ok(ps, orig, added),
    ensures
        doc_of(ps, orig, added).len() == sum_lengths(ps),
    decreases ps.len(),
{
    if ps.len() > 0 {
        assert(piece_ok(ps[0], orig, added));
        lemma_doc_of_len(ps.drop_first(), orig, added);
    }
}

/// Growing the `added` buffer changes no piece's text: every well-formed
/// piece addresses a range that was already written.
pub proof fn lemma_doc_of_extend(
    ps: Seq<Piece>,
    orig: Seq<char>,
    added: Seq<char>,
    added2: Seq<char>,
)
    requires
        pieces_ok(ps, orig, added),
        added.len() <= added2.len(),
        added2.subrange(0, added.len() as int) == added,
    ensures
        pieces_ok(ps, orig, added2),
        doc_of(ps, orig, added2) == doc_of(ps, orig, added),
    decreases ps.len(),
{
    assert forall|i: int| 0 <= i < ps.len() implies piece_ok(#[trigger] ps[i], orig, added2) by {
        assert(piece_ok(ps[i], orig, added));
    }
    if ps.len() > 0 {
        let p = ps[0];
        assert(piece_ok(p, orig, added));
        if p.source is Added {
            assert(piece_text(p, orig, added2) =~= piece_text(p, orig, added)) by {
                assert(forall|j: int|
                    0 <= j < added.len() ==> added2[j] == #[trigger] added[j]) by {
                    assert(forall|j: int|
                        0 <= j < added.len() ==> added[j] == #[trigger] added2.subrange(
                            0,
                            added.len() as int,
                        )[j]);
                }
            }
        } else {
            assert(piece_text(p, orig, added2) == piece_text(p, orig, added));
        }
        lemma_doc_of_extend(ps.drop_first(), orig, added, added2);
    }
}

/// The engine: the two buffers, the current piece list, and the snapshot
/// history with its current position.
pub struct PieceTable {
    original_buf: Vec<char>,
    add_buf: Vec<char>,
    pieces: Vec<Piece>,
    pieces_history: Vec<Vec<Piece>>,
    history_pos: usize,
}

impl PieceTable {
    /// The current document: the concatenation, in piece order, of the text
    /// each piece addresses.
    pub closed spec fn doc(self) -> Seq<char> {
        doc_of(self.pieces@, self.original_buf@, self.add_buf@)
    }

    /// The current piece list.
    pub closed spec fn piece_list(self) -> Seq<Piece> {
        self.pieces@
    }

    /// The documents of the snapshot history, oldest first.
    pub closed spec fn history(self) -> Seq<Seq<char>> {
        Seq::new(
            self.pieces_history@.len(),
            |i: int| doc_of(self.pieces_history@[i]@, self.original_buf@, self.add_buf@),
        )
    }

    /// The position of the current document within the snapshot history.
    pub closed spec fn history_at(self) -> int {
        self.history_pos as int
    }

    /// Well-formedness: every piece of the current list and of every snapshot
    /// is non-empty and lies within its buffer; the history is non-empty; the
    /// current piece list is the snapshot at the current history position;
    /// and every snapshot's document fits in a machine word, so that offsets
    /// into it can be computed.
    pub closed spec fn wf(self) -> bool {
        &&& pieces_ok(self.pieces@, self.original_buf@, self.add_buf@)
        &&& self.history_pos < self.pieces_history@.len()
        &&& self.pieces@ == self.pieces_history@[self.history_pos as int]@
        &&& forall|i: int|
            0 <= i < self.pieces_history@.len() ==> pieces_ok(
                #[trigger] self.pieces_history@[i]@,
                self.original_buf@,
                self.add_buf@,
            )
        &&& forall|i: int|
            0 <= i < self.pieces_history@.len() ==> doc_of(
                #[trigger] self.pieces_history@[i]@,
                self.original_buf@,
                self.add_buf@,
            ).len() <= usize::MAX
    }

    /// Build an engine over an initial document: the `original` buffer holds
    /// that text, the `added` buffer is empty, the piece list is one piece
    /// covering all of it (none when it is empty), and the history holds that
    /// single snapshot.
    pub fn new(contents: String) -> (r: PieceTable)
        ensures
            r.wf(),
            r.doc() == contents@,
            r.history() =~= seq![contents@],
            r.history_at() == 0,
    {
        let original_buf = str_chars(contents.as_str());
        let mut pieces: Vec<Piece> = Vec::new();
        if original_buf.len() > 0 {
            pieces.push(
                Piece { source: Source::Original, start: 0, length: original_buf.len() },
            );
        }
        let snapshot = clone_pieces(&pieces);
        let mut pieces_history: Vec<Vec<Piece>> = Vec::new();
        pieces_history.push(snapshot);
        let r = PieceTable { original_buf, add_buf: Vec::new(), pieces, pieces_history, history_pos: 0 };
        proof {
            if r.pieces@.len() > 0 {
                assert(r.pieces@.drop_first() =~= Seq::<Piece>::empty());
                assert(doc_of(r.pieces@.drop_first(), r.original_buf@, r.add_buf@)
                    =~= Seq::<char>::empty());
                assert(piece_text(r.pieces@[0], r.original_buf@, r.add_buf@) =~= contents@);
                assert(r.doc() =~= contents@);
            } else {
                assert(r.original_buf@.len() == 0);
                assert(contents@.len() == 0);
                assert(r.doc() =~= contents@);
            }
        }
        r
    }

    /// The character count of the current document, which equals the sum of
    /// the piece lengths.
    pub fn len(&self) -> (r: usize)
        requires
            self.wf(),
        ensures
            r == self.doc().len(),
    {
        let n = self.pieces.len();
        let mut sum: usize = 0;
        let mut idx: usize = 0;
        while idx < n
            invariant
                idx <= n,
                n == self.pieces@.len(),
                self.wf(),
                sum == doc_of(self.pieces@.subrange(0, idx as int), self.original_buf@, self.add_buf@).len(),
            decreases n - idx,
        {
            proof {
                lemma_step_append(self.pieces@, idx as int, self.original_buf@, self.add_buf@);
                lemma_doc_of_split(self.pieces@, idx + 1, self.original_buf@, self.add_buf@);
                assert(piece_ok(self.pieces@[idx as int], self.original_buf@, self.add_buf@));
                assert(self.doc().len() <= usize::MAX);
            }
            sum = sum + self.pieces[idx].length;
            idx = idx + 1;
        }
        proof {
            assert(self.pieces@.subrange(0, n as int) =~= self.pieces@);
        }
        sum
    }

    /// The characters of the current document, in order.
    pub(crate) fn doc_chars(&self) -> (r: Vec<char>)
        requires
            self.wf(),
        ensures
            r@ == self.doc(),
    {
        let n = self.pieces.len();
        let ob_len = self.original_buf.len();
        let ab_len = self.add_buf.len();
        let mut r: Vec<char> = Vec::new();
        let mut idx: usize = 0;
        proof {
            assert(self.pieces@.subrange(0, 0) =~= Seq::<Piece>::empty());
        }
        while idx < n
            invariant
                idx <= n,
                n == self.pieces@.len(),
                ob_len == self.original_buf@.len(),
                ab_len == self.add_buf@.len(),
                self.wf(),
                r@ == doc_of(self.pieces@.subrange(0, idx as int), self.original_buf@, self.add_buf@),
            decreases n - idx,
        {
            let p = self.pieces[idx];
            proof {
                assert(piece_ok(p, self.original_buf@, self.add_buf@));
            }
            let mut j: usize = 0;
            while j < p.length
                invariant
                    j <= p.length,
                    piece_ok(p, self.original_buf@, self.add_buf@),
                    self.original_buf@.len() <= usize::MAX,
                    self.add_buf@.len() <= usize::MAX,
                    r@ == doc_of(self.pieces@.subrange(0, idx as int), self.original_buf@, self.add_buf@) + buf_of(
                        p.source,
                        self.original_buf@,
                        self.add_buf@,
                    ).subrange(p.start as int, p.start + j),
                decreases p.length - j,
            {
                let c = match p.source {
                    Source::Original => self.original_buf[p.start + j],
                    Source::Added => self.add_buf[p.start + j],
                };
                r.push(c);
                j = j + 1;
                proof {
                    let buf = buf_of(p.source, self.original_buf@, self.add_buf@);
                    assert(buf.subrange(p.start as int, p.start + j) =~= buf.subrange(
                        p.start as int,
                        p.start + j - 1,
                    ).push(buf[p.start + j - 1]));
                }
            }
            proof {
                assert(buf_of(p.source, self.original_buf@, self.add_buf@).subrange(p.start as int, p.start + p.length)
                    == piece_text(p, self.original_buf@, self.add_buf@));
                lemma_step_append(self.pieces@, idx as int, self.original_buf@, self.add_buf@);
            }
            idx = idx + 1;
        }
        proof {
            assert(self.pieces@.subrange(0, n as int) =~= self.pieces@);
        }
        r
    }

    /// The current document as text.
    pub fn read(&self) -> (r: String)
        requires
            self.wf(),
        ensures
            r@ == self.doc(),
    {
        let chars = self.doc_chars();
        let n = chars.len();
        let mut s = String::new();
        for i in 0..n
            invariant
                n == chars@.len(),
                chars@ == self.doc(),
                s@ == chars@.subrange(0, i as int),
        {
            push_char(&mut s, chars[i]);
            proof {
                assert(chars@.subrange(0, i + 1) =~= chars@.subrange(0, i as int).push(
                    chars@[i as int],
                ));
            }
        }
        proof {
            assert(chars@.subrange(0, n as int) =~= chars@);
        }
        s
    }

    /// The character count of line `line_index` of the current document, and
    /// 0 for a line index at or beyond the line count: an out-of-range query
    /// means "no content there", never an error.
    ///
    /// Answered by materializing the document and scanning it for
    /// terminators, in preference to a maintained per-buffer terminator
    /// index: queries arrive at interactive rate, so the simple walk that is
    /// right by construction wins over a cache that would have to be kept
    /// valid across every piece split.
    pub fn get_line_length(&self, line_index: usize) -> (r: usize)
        requires
            self.wf(),
        ensures
            r == crate::lines::line_len(self.doc(), line_index as int),
    {
        let chars = self.doc_chars();
        match crate::lines::line_start_at(&chars, line_index) {
            Some(s) => {
                let e = crate::lines::scan_newline(&chars, s);
                proof {
                    crate::lines::lemma_first_nl(chars@.subrange(s as int, chars@.len() as int));
                }
                e - s
            },
            None => 0,
        }
    }

    /// The current piece list, as plain values: a diagnostic listing of
    /// `{source, start, length}` triples, not part of the editing contract.
    pub fn get_pieces(&self) -> (r: Vec<Piece>)
        ensures
            r@ == self.piece_list(),
    {
        clone_pieces(&self.pieces)
    }

    /// Walk the piece list to the piece containing document offset
    /// `position`: returns its index together with the document offset at
    /// which it starts. When `position` is the very end of the document the
    /// index is the piece count.
    fn locate(&self, position: usize) -> (r: (usize, usize))
        requires
            self.wf(),
            position <= self.doc().len(),
        ensures
            ({
                let (idx, offset) = r;
                &&& idx <= self.pieces@.len()
                &&& offset <= position
                &&& offset == doc_of(
                    self.pieces@.subrange(0, idx as int),
                    self.original_buf@,
                    self.add_buf@,
                ).len()
                &&& idx < self.pieces@.len() ==> position - offset
                    < self.pieces@[idx as int].length
                &&& idx == self.pieces@.len() ==> position == self.doc().len()
            }),
    {
        let n = self.pieces.len();
        let mut idx: usize = 0;
        let mut offset: usize = 0;
        proof {
            assert(self.pieces@.subrange(0, 0) =~= Seq::<Piece>::empty());
        }
        while idx < n && self.pieces[idx].length <= position - offset
            invariant
                idx <= n,
                n == self.pieces@.len(),
                self.wf(),
                position <= self.doc().len(),
                offset <= position,
                offset == doc_of(
                    self.pieces@.subrange(0, idx as int),
                    self.original_buf@,
                    self.add_buf@,
                ).len(),
            decreases n - idx,
        {
            proof {
                lemma_step_append(self.pieces@, idx as int, self.original_buf@, self.add_buf@);
                assert(piece_ok(
                    self.pieces@[idx as int],
                    self.original_buf@,
                    self.add_buf@,
                ));
            }
            offset = offset + self.pieces[idx].length;
            idx = idx + 1;
        }
        proof {
            if idx == n {
                assert(self.pieces@.subrange(0, n as int) =~= self.pieces@);
            }
        }
        (idx, offset)
    }

    /// Insert `content` at document offset `position`.
    ///
    /// A position beyond the end of the document is rejected with
    /// `OutOfBounds` and leaves the engine untouched. Empty content is a
    /// no-op that succeeds and records no snapshot. Otherwise the characters
    /// are appended to the `added` buffer and one new piece addressing them
    /// enters the list — between the halves of a split piece when `position`
    /// falls strictly inside one — and the result is recorded as the newest
    /// snapshot, discarding whatever could have been redone.
    ///
    /// Every insertion gets a piece of its own: a run of consecutive
    /// single-character insertions is deliberately not coalesced into one
    /// piece, which only the diagnostic piece listing can observe.
    #[verifier::rlimit(60)]
    pub fn insert(&mut self, content: &str, position: usize) -> (r: Result<(), OutOfBounds>)
        requires
            old(self).wf(),
            old(self).doc().len() + content@.len() <= usize::MAX,
        ensures
            final(self).wf(),
            position > old(self).doc().len() ==> r is Err && *final(self) == *old(self),
            position <= old(self).doc().len() && content@.len() == 0 ==> r is Ok && *final(self)
                == *old(self),
            position <= old(self).doc().len() && content@.len() > 0 ==> {
                &&& r is Ok
                &&& final(self).doc() == spliced_in(old(self).doc(), content@, position as int)
                &&& final(self).history() == history_after_edit(
                    old(self).history(),
                    old(self).history_at(),
                    final(self).doc(),
                )
                &&& final(self).history_at() == old(self).history_at() + 1
            },
    {
        let doc_len = self.len();
        if position > doc_len {
            return Err(OutOfBounds);
        }
        let new_chars = str_chars(content);
        let clen = new_chars.len();
        if clen == 0 {
            return Ok(());
        }
        let (idx, offset) = self.locate(position);
        let n = self.pieces.len();
        let ob_len = self.original_buf.len();
        let start = self.add_buf.len();

        let ghost o = self.original_buf@;
        let ghost a0 = self.add_buf@;
        let ghost ps = self.pieces@;
        let ghost old_doc = self.doc();

        // Append the new characters to the added buffer.
        let mut t: usize = 0;
        while t < clen
            invariant
                t <= clen,
                clen == new_chars@.len(),
                self.add_buf@ == a0 + new_chars@.subrange(0, t as int),
                self.original_buf == old(self).original_buf,
                self.pieces == old(self).pieces,
                self.pieces_history == old(self).pieces_history,
                self.history_pos == old(self).history_pos,
            decreases clen - t,
        {
            self.add_buf.push(new_chars[t]);
            t = t + 1;
            proof {
                assert(a0 + new_chars@.subrange(0, t as int) =~= (a0 + new_chars@.subrange(
                    0,
                    t - 1,
                )).push(new_chars@[t - 1]));
            }
        }
        let ghost a1 = self.add_buf@;
        let ab_len = self.add_buf.len();
        proof {
            assert(new_chars@.subrange(0, clen as int) =~= content@);
            assert(a1 == a0 + content@);
            assert(a1.subrange(0, a0.len() as int) =~= a0);
            lemma_doc_of_extend(ps, o, a0, a1);
            assert forall|i: int| 0 <= i < old(self).pieces_history@.len() implies pieces_ok(
                #[trigger] old(self).pieces_history@[i]@,
                o,
                a1,
            ) && doc_of(old(self).pieces_history@[i]@, o, a1) == doc_of(
                old(self).pieces_history@[i]@,
                o,
                a0,
            ) by {
                lemma_doc_of_extend(old(self).pieces_history@[i]@, o, a0, a1);
            }
            // the walk's offset is unchanged by the buffer extension
            assert forall|i: int| 0 <= i < ps.subrange(0, idx as int).len() implies piece_ok(
                #[trigger] ps.subrange(0, idx as int)[i],
                o,
                a0,
            ) by {
                assert(ps.subrange(0, idx as int)[i] == ps[i]);
            }
            lemma_doc_of_extend(ps.subrange(0, idx as int), o, a0, a1);
            lemma_doc_of_split(ps, idx as int, o, a1);
            lemma_count_le_len(ps, o, a0);
        }
        let ghost pre = ps.subrange(0, idx as int);
        let ghost suf = ps.subrange(idx as int, n as int);
        let ghost pre_doc = doc_of(pre, o, a1);
        let ghost suf_doc = doc_of(suf, o, a1);

        let new_piece = Piece { source: Source::Added, start, length: clen };
        proof {
            assert(piece_ok(new_piece, o, a1));
            assert(piece_text(new_piece, o, a1) =~= content@);
        }

        if idx == n {
            // The position is the very end of the document: append.
            self.pieces.push(new_piece);
            proof {
                assert(self.pieces@ =~= ps + seq![new_piece]);
                lemma_doc_of_concat(ps, seq![new_piece], o, a1);
                lemma_doc_of_singleton(new_piece, o, a1);
                assert(old_doc + Seq::<char>::empty() + Seq::<char>::empty() =~= old_doc);
                lemma_spliced_in_chunks(
                    old_doc,
                    Seq::<char>::empty(),
                    Seq::<char>::empty(),
                    content@,
                    0,
                );
                assert(old_doc + Seq::<char>::empty().subrange(0, 0) + content@
                    + Seq::<char>::empty().subrange(0, 0) + Seq::<char>::empty() =~= old_doc
                    + content@);
                assert(self.doc() == spliced_in(old_doc, content@, position as int));
            }
        } else {
            let local = position - offset;
            if local == 0 {
                // The position coincides with a piece boundary: no split.
                self.pieces.insert(idx, new_piece);
                proof {
                    assert(self.pieces@ =~= pre + seq![new_piece] + suf);
                    lemma_doc_of_concat(pre + seq![new_piece], suf, o, a1);
                    lemma_doc_of_concat(pre, seq![new_piece], o, a1);
                    lemma_doc_of_singleton(new_piece, o, a1);
                    assert(old_doc =~= pre_doc + Seq::<char>::empty() + suf_doc);
                    lemma_spliced_in_chunks(pre_doc, Seq::<char>::empty(), suf_doc, content@, 0);
                    assert(pre_doc + Seq::<char>::empty().subrange(0, 0) + content@
                        + Seq::<char>::empty().subrange(0, 0) + suf_doc =~= pre_doc + content@
                        + suf_doc);
                    assert(self.doc() =~= (pre_doc + content@) + suf_doc);
                    assert(self.doc() == spliced_in(old_doc, content@, position as int));
                }
            } else {
                // The position lies strictly inside piece `idx`: split it.
                let p = self.pieces[idx];
                proof {
                    assert(piece_ok(p, o, a1));
                    assert(a1.len() == ab_len);
                }
                let left = Piece { source: p.source, start: p.start, length: local };
                let right = Piece {
                    source: p.source,
                    start: p.start + local,
                    length: p.length - local,
                };
                self.pieces.set(idx, left);
                self.pieces.insert(idx + 1, new_piece);
                self.pieces.insert(idx + 2, right);
                proof {
                    let rest = ps.subrange(idx + 1, n as int);
                    let ptext = piece_text(p, o, a1);
                    assert(self.pieces@ =~= pre + seq![left, new_piece, right] + rest);
                    lemma_doc_of_concat(pre + seq![left, new_piece, right], rest, o, a1);
                    lemma_doc_of_concat(pre, seq![left, new_piece, right], o, a1);
                    assert(seq![left, new_piece, right].drop_first() =~= seq![new_piece, right]);
                    assert(seq![new_piece, right].drop_first() =~= seq![right]);
                    lemma_doc_of_singleton(right, o, a1);
                    assert(doc_of(seq![new_piece, right], o, a1) == piece_text(new_piece, o, a1)
                        + piece_text(right, o, a1));
                    assert(doc_of(seq![left, new_piece, right], o, a1) == piece_text(left, o, a1)
                        + (piece_text(new_piece, o, a1) + piece_text(right, o, a1)));
                    // the halves carve the split piece's text in two
                    assert(piece_text(left, o, a1) =~= ptext.subrange(0, local as int));
                    assert(piece_text(right, o, a1) =~= ptext.subrange(
                        local as int,
                        ptext.len() as int,
                    ));
                    // the old document around the split piece
                    assert(suf =~= seq![p] + rest);
                    lemma_doc_of_concat(seq![p], rest, o, a1);
                    lemma_doc_of_singleton(p, o, a1);
                    assert(old_doc =~= pre_doc + ptext + doc_of(rest, o, a1));
                    lemma_spliced_in_chunks(pre_doc, ptext, doc_of(rest, o, a1), content@, local as int);
                    assert(self.doc() =~= pre_doc + ptext.subrange(0, local as int) + content@
                        + ptext.subrange(local as int, ptext.len() as int) + doc_of(rest, o, a1));
                    assert(self.doc() == spliced_in(old_doc, content@, position as int));
                }
            }
        }
        let ghost mid = *self;
        proof {
            assert(pieces_ok(mid.pieces@, o, a1));
            lemma_doc_of_len(mid.pieces@, o, a1);
            lemma_doc_of_len(ps, o, a1);
            assert(mid.doc().len() == old_doc.len() + content@.len()) by {
                assert(spliced_in(old_doc, content@, position as int).len() == old_doc.len()
                    + content@.len()) by {
                    assert(old_doc.subrange(0, position as int).len() == position as int);
                    assert(old_doc.subrange(position as int, old_doc.len() as int).len()
                        == old_doc.len() - position);
                }
            }
        }
        self.store();
        proof {
            assert(final(self).doc() == mid.doc());
            assert(mid.history() =~= old(self).history());
            assert(final(self).history() == old(self).history().subrange(
                0,
                old(self).history_at() + 1,
            ).push(final(self).doc()));
        }
        Ok(())
    }

    /// Delete the one character at document offset `position`.
    ///
    /// A position at or beyond the end of the document — in particular any
    /// position in an empty document — is a no-op that succeeds and records
    /// no snapshot, so a caller with a stale cursor never brings the session
    /// down. Otherwise the containing piece is removed, trimmed, or split in
    /// two around the character, and the result is recorded as the newest
    /// snapshot, discarding whatever could have been redone.
    #[verifier::rlimit(60)]
    pub fn delete(&mut self, position: usize) -> (r: Result<(), OutOfBounds>)
        requires
            old(self).wf(),
        ensures
            final(self).wf(),
            r is Ok,
            position >= old(self).doc().len() ==> *final(self) == *old(self),
            position < old(self).doc().len() ==> {
                &&& final(self).doc() == spliced_out(old(self).doc(), position as int)
                &&& final(self).history() == history_after_edit(
                    old(self).history(),
                    old(self).history_at(),
                    final(self).doc(),
                )
                &&& final(self).history_at() == old(self).history_at() + 1
            },
    {
        let doc_len = self.len();
        if position >= doc_len {
            return Ok(());
        }
        let (idx, offset) = self.locate(position);
        let n = self.pieces.len();
        let ob_len = self.original_buf.len();
        let ab_len = self.add_buf.len();

        let ghost o = self.original_buf@;
        let ghost a = self.add_buf@;
        let ghost ps = self.pieces@;
        let ghost old_doc = self.doc();

        let local = position - offset;
        let p = self.pieces[idx];
        let ghost pre = ps.subrange(0, idx as int);
        let ghost rest = ps.subrange(idx + 1, n as int);
        let ghost ptext = piece_text(p, o, a);
        proof {
            assert(piece_ok(p, o, a));
            lemma_doc_of_split(ps, idx as int, o, a);
            assert(ps.subrange(idx as int, n as int) =~= seq![p] + rest);
            lemma_doc_of_concat(seq![p], rest, o, a);
            lemma_doc_of_singleton(p, o, a);
            assert(old_doc =~= doc_of(pre, o, a) + ptext + doc_of(rest, o, a));
            lemma_spliced_out_chunks(
                doc_of(pre, o, a),
                ptext,
                doc_of(rest, o, a),
                local as int,
            );
        }

        if p.length == 1 {
            // The piece is wholly consumed: remove it.
            self.pieces.remove(idx);
            proof {
                assert(self.pieces@ =~= pre + rest);
                lemma_doc_of_concat(pre, rest, o, a);
                assert(ptext.subrange(0, local as int) =~= Seq::<char>::empty());
                assert(ptext.subrange(local + 1, ptext.len() as int) =~= Seq::<char>::empty());
                assert(self.doc() =~= spliced_out(old_doc, position as int));
            }
        } else if local == 0 {
            // The first character goes: advance the piece's start.
            let trimmed = Piece { source: p.source, start: p.start + 1, length: p.length - 1 };
            self.pieces.set(idx, trimmed);
            proof {
                assert(self.pieces@ =~= pre + seq![trimmed] + rest);
                lemma_doc_of_concat(pre + seq![trimmed], rest, o, a);
                lemma_doc_of_concat(pre, seq![trimmed], o, a);
                lemma_doc_of_singleton(trimmed, o, a);
                assert(piece_text(trimmed, o, a) =~= ptext.subrange(1, ptext.len() as int));
                assert(ptext.subrange(0, local as int) =~= Seq::<char>::empty());
                assert(self.doc() =~= spliced_out(old_doc, position as int));
            }
        } else if local == p.length - 1 {
            // The last character goes: shorten the piece.
            let trimmed = Piece { source: p.source, start: p.start, length: p.length - 1 };
            self.pieces.set(idx, trimmed);
            proof {
                assert(self.pieces@ =~= pre + seq![trimmed] + rest);
                lemma_doc_of_concat(pre + seq![trimmed], rest, o, a);
                lemma_doc_of_concat(pre, seq![trimmed], o, a);
                lemma_doc_of_singleton(trimmed, o, a);
                assert(piece_text(trimmed, o, a) =~= ptext.subrange(0, local as int));
                assert(ptext.subrange(local + 1, ptext.len() as int) =~= Seq::<char>::empty());
                assert(self.doc() =~= spliced_out(old_doc, position as int));
            }
        } else {
            // An interior character goes: split the piece around it.
            let left = Piece { source: p.source, start: p.start, length: local };
            let right = Piece {
                source: p.source,
                start: p.start + local + 1,
                length: p.length - local - 1,
            };
            self.pieces.set(idx, left);
            self.pieces.insert(idx + 1, right);
            proof {
                assert(self.pieces@ =~= pre + seq![left, right] + rest);
                lemma_doc_of_concat(pre + seq![left, right], rest, o, a);
                lemma_doc_of_concat(pre, seq![left, right], o, a);
                assert(seq![left, right].drop_first() =~= seq![right]);
                lemma_doc_of_singleton(right, o, a);
                assert(doc_of(seq![left, right], o, a) == piece_text(left, o, a) + piece_text(
                    right,
                    o,
                    a,
                ));
                assert(piece_text(left, o, a) =~= ptext.subrange(0, local as int));
                assert(piece_text(right, o, a) =~= ptext.subrange(local + 1, ptext.len() as int));
                assert(self.doc() =~= spliced_out(old_doc, position as int));
            }
        }
        let ghost mid = *self;
        proof {
            assert(pieces_ok(mid.pieces@, o, a));
            assert(mid.doc().len() <= old_doc.len()) by {
                assert(spliced_out(old_doc, position as int).len() == old_doc.len() - 1) by {
                    assert(old_doc.subrange(0, position as int).len() == position as int);
                    assert(old_doc.subrange(position + 1, old_doc.len() as int).len()
                        == old_doc.len() - position - 1);
                }
            }
        }
        self.store();
        proof {
            assert(final(self).doc() == mid.doc());
            assert(mid.history() =~= old(self).history());
            assert(final(self).history() == old(self).history().subrange(
                0,
                old(self).history_at() + 1,
            ).push(final(self).doc()));
        }
        Ok(())
    }

    /// Record the current piece list as the newest snapshot: whatever could
    /// be redone is discarded, the snapshot is appended, and the history
    /// position moves onto it.
    fn store(&mut self)
        requires
            pieces_ok(old(self).pieces@, old(self).original_buf@, old(self).add_buf@),
            old(self).history_pos < old(self).pieces_history@.len(),
            forall|i: int|
                0 <= i < old(self).pieces_history@.len() ==> pieces_ok(
                    #[trigger] old(self).pieces_history@[i]@,
                    old(self).original_buf@,
                    old(self).add_buf@,
                ),
            forall|i: int|
                0 <= i < old(self).pieces_history@.len() ==> doc_of(
                    #[trigger] old(self).pieces_history@[i]@,
                    old(self).original_buf@,
                    old(self).add_buf@,
                ).len() <= usize::MAX,
            doc_of(old(self).pieces@, old(self).original_buf@, old(self).add_buf@).len()
                <= usize::MAX,
        ensures
            final(self).wf(),
            final(self).original_buf == old(self).original_buf,
            final(self).add_buf == old(self).add_buf,
            final(self).pieces@ == old(self).pieces@,
            final(self).history_at() == old(self).history_pos + 1,
            final(self).history() == old(self).history().subrange(
                0,
                old(self).history_pos + 1,
            ).push(doc_of(old(self).pieces@, old(self).original_buf@, old(self).add_buf@)),
    {
        let hlen = self.pieces_history.len();
        proof {
            assert(self.history_pos < hlen);
        }
        self.pieces_history.truncate(self.history_pos + 1);
        let snap = clone_pieces(&self.pieces);
        self.pieces_history.push(snap);
        self.history_pos = self.history_pos + 1;
        proof {
            let oh = old(self).history();
            let goal = oh.subrange(0, old(self).history_pos + 1).push(
                doc_of(old(self).pieces@, old(self).original_buf@, old(self).add_buf@),
            );
            assert forall|i: int| 0 <= i < self.pieces_history@.len() implies self.history()[i]
                == goal[i] by {
                if i < old(self).history_pos + 1 {
                    assert(self.pieces_history@[i] == old(self).pieces_history@[i]);
                } else {
                    assert(self.pieces_history@[i]@ == old(self).pieces@);
                }
            }
            assert(self.history() =~= goal);
        }
    }

    /// Step back to the previous snapshot, if there is one; at the oldest
    /// snapshot this is a no-op. The buffers are untouched, so the restored
    /// piece list addresses text that is still present.
    pub fn undo(&mut self)
        requires
            old(self).wf(),
        ensures
            final(self).wf(),
            old(self).history_at() == 0 ==> *final(self) == *old(self),
            old(self).history_at() > 0 ==> {
                &&& final(self).history() == old(self).history()
                &&& final(self).history_at() == old(self).history_at() - 1
                &&& final(self).doc() == old(self).history()[old(self).history_at() - 1]
            },
    {
        if self.history_pos > 0 {
            self.history_pos = self.history_pos - 1;
            let snap = clone_pieces(&self.pieces_history[self.history_pos]);
            self.pieces = snap;
            proof {
                assert(final(self).history() =~= old(self).history());
            }
        }
    }

    /// Step forward to the next snapshot, if one was left behind by `undo`;
    /// at the newest snapshot this is a no-op.
    pub fn redo(&mut self)
        requires
            old(self).wf(),
        ensures
            final(self).wf(),
            old(self).history_at() == old(self).history().len() - 1 ==> *final(self) == *old(
                self,
            ),
            old(self).history_at() < old(self).history().len() - 1 ==> {
                &&& final(self).history() == old(self).history()
                &&& final(self).history_at() == old(self).history_at() + 1
                &&& final(self).doc() == old(self).history()[old(self).history_at() + 1]
            },
    {
        let hlen = self.pieces_history.len();
        if self.history_pos < hlen - 1 {
            self.history_pos = self.history_pos + 1;
            let snap = clone_pieces(&self.pieces_history[self.history_pos]);
            self.pieces = snap;
            proof {
                assert(final(self).history() =~= old(self).history());
            }
        }
    }
}

/// Extending a reconstructed prefix by the next piece appends that piece's
/// text.
proof fn lemma_step_append(ps: Seq<Piece>, i: int, orig: Seq<char>, added: Seq<char>)
    requires
        0 <= i < ps.len(),
    ensures
        doc_of(ps.subrange(0, i + 1), orig, added) == doc_of(ps.subrange(0, i), orig, added)
            + piece_text(ps[i], orig, added),
{
    assert(ps.subrange(0, i + 1) =~= ps.subrange(0, i) + seq![ps[i]]);
    lemma_doc_of_concat(ps.subrange(0, i), seq![ps[i]], orig, added);
    lemma_doc_of_singleton(ps[i], orig, added);
}

/// The characters of a string slice, in order.
fn str_chars(s: &str) -> (r: Vec<char>)
    ensures
        r@ == s@,
{
    broadcast use vstd::string::axiom_spec_iter;

    let mut r: Vec<char> = Vec::new();
    for c in it: s.chars()
        invariant
            r@ == it.seq().subrange(0, it.index()),
            it.seq() == s@,
    {
        r.push(c);
    }
    proof {
        assert(r@ =~= s@);
    }
    r
}

/// A copy of a piece list.
fn clone_pieces(v: &Vec<Piece>) -> (r: Vec<Piece>)
    ensures
        r@ == v@,
{
    let mut r: Vec<Piece> = Vec::new();
    let n = v.len();
    for i in 0..n
        invariant
            n == v@.len(),
            r@ == v@.subrange(0, i as int),
    {
        r.push(v[i]);
    }
    proof {
        assert(r@ =~= v@);
    }
    r
}

/// Relies on `String::push`: appends the given character to the end of the
/// string.
#[verifier::external_body]
fn push_char(s: &mut String, c: char)
    ensures
        final(s)@ == old(s)@.push(c),
{
    s.push(c);
}

/// In a well-formed engine the sum of all piece lengths equals the
/// document's character count; since every operation leaves the engine well
/// formed, this holds after every `insert` and `delete`.
pub proof fn lemma_sum_of_lengths(pt: PieceTable)
    requires
        pt.wf(),
    ensures
        sum_lengths(pt.piece_list()) == pt.doc().len(),
{
    lemma_doc_of_len(pt.piece_list(), pt.original_buf@, pt.add_buf@);
}

/// No piece of a well-formed engine has length 0; since every operation
/// leaves the engine well formed, no operation leaves an empty piece behind.
pub proof fn lemma_no_empty_piece(pt: PieceTable)
    requires
        pt.wf(),
    ensures
        forall|i: int| 0 <= i < pt.piece_list().len() ==> #[trigger] pt.piece_list()[i].length > 0,
{
    assert forall|i: int|
        0 <= i < pt.piece_list().len() implies #[trigger] pt.piece_list()[i].length > 0 by {
        assert(piece_ok(pt.piece_list()[i], pt.original_buf@, pt.add_buf@));
    }
}

/// A well-formed engine's current document is the snapshot at the current
/// history position.
pub proof fn lemma_doc_is_current_snapshot(pt: PieceTable)
    requires
        pt.wf(),
    ensures
        0 <= pt.history_at() < pt.history().len(),
        pt.doc() == pt.history()[pt.history_at()],
{
}

/// A well-formed engine whose document is empty holds no residual pieces.
pub proof fn lemma_empty_doc_no_pieces(pt: PieceTable)
    requires
        pt.wf(),
        pt.doc().len() == 0,
    ensures
        pt.piece_list().len() == 0,
{
    lemma_count_le_len(pt.piece_list(), pt.original_buf@, pt.add_buf@);
}

/// Undo and redo are exact inverses around an edit. After an edit of a
/// history that stood at position `at` on document `d0`, producing document
/// `d1`, the history holds `d0` at position `at` and `d1` one past it, at
/// its end: stepping back — which is what `undo` does — yields the pre-edit
/// document, and stepping forward again — which is what `redo` does —
/// yields the edited one.
pub proof fn lemma_undo_redo_are_inverse(h: Seq<Seq<char>>, at: int, d0: Seq<char>, d1: Seq<char>)
    requires
        0 <= at < h.len(),
        h[at] == d0,
    ensures
        history_after_edit(h, at, d1).len() == at + 2,
        history_after_edit(h, at, d1)[at + 1] == d1,
        history_after_edit(h, at, d1)[(at + 1) - 1] == d0,
{
}

} // verus!
