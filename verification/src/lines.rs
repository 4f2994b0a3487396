//! Line structure of a document.
//!
//! A document is a sequence of characters; the line terminator is `'\n'`.
//! A line is a maximal run of characters free of terminators, bounded by the
//! previous terminator (or the start of the document) and the next terminator
//! (or the end of the document). Lines are numbered from 0, so a document
//! always has at least one line, and a document that ends in a terminator has
//! a final empty line after it.

use vstd::prelude::*;

verus! {

/// Index of the first line terminator of `doc`, or `doc.len()` if there is none.
pub open spec fn first_nl(doc: Seq<char>) -> int
    decreases doc.len(),
{
    if doc.len() == 0 {
        0
    } else if doc[0] == '\n' {
        0
    } else {
        1 + first_nl(doc.drop_first())
    }
}

/// Document offset at which line `row` starts: 0 for line 0, one past the
/// row-th terminator otherwise; `None` when the document has no line `row`.
pub open spec fn line_start(doc: Seq<char>, row: int) -> Option<int>
    decreases doc.len(),
    via line_start_dec
{
    if row <= 0 {
        Some(0)
    } else if first_nl(doc) == doc.len() {
        None
    } else {
        match line_start(doc.subrange(first_nl(doc) + 1, doc.len() as int), row - 1) {
            Some(s) => Some(first_nl(doc) + 1 + s),
            None => None,
        }
    }
}

/// Character count of line `row`, and 0 for a row the document does not have.
pub open spec fn line_len(doc: Seq<char>, row: int) -> int {
    match line_start(doc, row) {
        Some(s) => first_nl(doc.subrange(s, doc.len() as int)),
        None => 0,
    }
}

/// Number of lines of the document: one more than its count of terminators.
pub open spec fn line_count(doc: Seq<char>) -> int
    decreases doc.len(),
    via line_count_dec
{
    if first_nl(doc) == doc.len() {
        1
    } else {
        1 + line_count(doc.subrange(first_nl(doc) + 1, doc.len() as int))
    }
}

/// Document offset addressed by a screen position: column `col` of line `row`.
/// The offset exists when line `row` exists, `col` does not pass its end, and
/// the addressed offset holds a character (the very end of the document is
/// addressable by no screen position).
pub open spec fn cursor_offset(doc: Seq<char>, col: int, row: int) -> Option<int> {
    match line_start(doc, row) {
        Some(s) => {
            if col <= line_len(doc, row) && s + col < doc.len() {
                Some(s + col)
            } else {
                None
            }
        },
        None => None,
    }
}

#[via_fn]
proof fn line_start_dec(doc: Seq<char>, row: int) {
    lemma_first_nl(doc);
}

#[via_fn]
proof fn line_count_dec(doc: Seq<char>) {
    lemma_first_nl(doc);
}

/// `first_nl` points at the first terminator: nothing before it is one, and
/// it lies within the document unless the document has none at all.
pub proof fn lemma_first_nl(doc: Seq<char>)
    ensures
        0 <= first_nl(doc) <= doc.len(),
        forall|j: int| 0 <= j < first_nl(doc) ==> doc[j] != '\n',
        first_nl(doc) < doc.len() ==> doc[first_nl(doc)] == '\n',
    decreases doc.len(),
{
    if doc.len() == 0 || doc[0] == '\n' {
    } else {
        let d = doc.drop_first();
        lemma_first_nl(d);
        assert forall|j: int| 0 <= j < first_nl(doc) implies doc[j] != '\n' by {
            if j > 0 {
                assert(doc[j] == d[j - 1]);
            }
        }
    }
}

/// Any index with no terminator before it and a terminator (or the document
/// end) at it is `first_nl`.
pub proof fn lemma_first_nl_at(doc: Seq<char>, k: int)
    requires
        0 <= k <= doc.len(),
        forall|j: int| 0 <= j < k ==> doc[j] != '\n',
        k < doc.len() ==> doc[k] == '\n',
    ensures
        first_nl(doc) == k,
    decreases doc.len(),
{
    if doc.len() == 0 {
    } else if doc[0] == '\n' {
        assert(k == 0);
    } else {
        assert(k >= 1);
        let d = doc.drop_first();
        assert(forall|j: int| 0 <= j < k - 1 ==> d[j] != '\n');
        lemma_first_nl_at(d, k - 1);
    }
}

/// Find the next line terminator at or after `from`; returns the document
/// length when the rest of the document has none.
pub(crate) fn scan_newline(chars: &Vec<char>, from: usize) -> (r: usize)
    requires
        from <= chars@.len(),
    ensures
        from <= r <= chars@.len(),
        r - from == first_nl(chars@.subrange(from as int, chars@.len() as int)),
{
    let n = chars.len();
    let mut i = from;
    while i < n && chars[i] != '\n'
        invariant
            from <= i <= n,
            n == chars@.len(),
            forall|j: int| from <= j < i ==> chars@[j] != '\n',
        decreases n - i,
    {
        i = i + 1;
    }
    proof {
        let sub = chars@.subrange(from as int, chars@.len() as int);
        assert(forall|j: int| 0 <= j < i - from ==> sub[j] != '\n');
        lemma_first_nl_at(sub, i - from);
    }
    i
}

/// Find the offset at which line `row` starts, or `None` when the document
/// has fewer than `row + 1` lines.
pub(crate) fn line_start_at(chars: &Vec<char>, row: usize) -> (r: Option<usize>)
    ensures
        match r {
            Some(s) => line_start(chars@, row as int) == Some(s as int) && s <= chars@.len(),
            None => line_start(chars@, row as int) is None,
        },
{
    let n = chars.len();
    let mut s: usize = 0;
    let mut remaining = row;
    proof {
        assert(chars@.subrange(0, n as int) =~= chars@);
    }
    while remaining > 0
        invariant
            s <= n,
            n == chars@.len(),
            remaining <= row,
            line_start(chars@, row as int) == match line_start(
                chars@.subrange(s as int, n as int),
                remaining as int,
            ) {
                Some(t) => Some(s + t),
                None => None::<int>,
            },
        decreases remaining,
    {
        let k = scan_newline(chars, s);
        if k == n {
            proof {
                let sub = chars@.subrange(s as int, n as int);
                assert(first_nl(sub) == sub.len());
            }
            return None;
        }
        proof {
            let sub = chars@.subrange(s as int, n as int);
            let sub2 = chars@.subrange(k + 1, n as int);
            assert(sub.subrange(first_nl(sub) + 1, sub.len() as int) =~= sub2);
        }
        s = k + 1;
        remaining = remaining - 1;
    }
    proof {
        assert(line_start(chars@.subrange(s as int, n as int), 0) == Some(0int));
    }
    Some(s)
}

/// A line index at or beyond the line count has length 0.
pub proof fn lemma_line_len_past_end(doc: Seq<char>, row: int)
    requires
        row >= line_count(doc),
    ensures
        line_len(doc, row) == 0,
    decreases doc.len(),
{
    lemma_line_start_past_end(doc, row);
}

/// Line `row` exists (has a start offset) exactly when `row` lies below the
/// line count.
pub proof fn lemma_line_start_past_end(doc: Seq<char>, row: int)
    requires
        row >= line_count(doc),
    ensures
        line_start(doc, row) is None,
    decreases doc.len(),
{
    lemma_line_count_positive(doc);
    if first_nl(doc) == doc.len() {
    } else {
        lemma_first_nl(doc);
        lemma_line_start_past_end(doc.subrange(first_nl(doc) + 1, doc.len() as int), row - 1);
    }
}

/// Every document has at least one line.
pub proof fn lemma_line_count_positive(doc: Seq<char>)
    ensures
        line_count(doc) >= 1,
    decreases doc.len(),
{
    if first_nl(doc) == doc.len() {
    } else {
        lemma_first_nl(doc);
        lemma_line_count_positive(doc.subrange(first_nl(doc) + 1, doc.len() as int));
    }
}

} // verus!
