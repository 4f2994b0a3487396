use editors::piece_table::{OutOfBounds, PieceTable, Source};

fn doc_chars(pt: &PieceTable) -> Vec<char> {
    pt.read().chars().collect()
}

#[test]
fn scenario_insert_middle() {
    let mut pt = PieceTable::new(String::from("hello\nworld"));
    assert_eq!(pt.insert("X", 5), Ok(()));
    assert_eq!(pt.read(), "helloX\nworld");
    assert_eq!(pt.get_line_length(0), 6);
}

#[test]
fn scenario_delete_after_insert() {
    let mut pt = PieceTable::new(String::from("hello\nworld"));
    assert_eq!(pt.insert("X", 5), Ok(()));
    assert_eq!(pt.read(), "helloX\nworld");
    assert_eq!(pt.delete(5), Ok(()));
    assert_eq!(pt.read(), "hello\nworld");
}

#[test]
fn scenario_undo_redo() {
    let mut pt = PieceTable::new(String::from("abc"));
    assert_eq!(pt.insert("Z", 0), Ok(()));
    assert_eq!(pt.read(), "Zabc");
    pt.undo();
    assert_eq!(pt.read(), "abc");
    pt.redo();
    assert_eq!(pt.read(), "Zabc");
}

#[test]
fn scenario_empty_start() {
    let mut pt = PieceTable::new(String::new());
    assert_eq!(pt.read(), "");
    assert_eq!(pt.insert("a", 0), Ok(()));
    assert_eq!(pt.insert("b", 1), Ok(()));
    assert_eq!(pt.read(), "ab");
    assert_eq!(pt.delete(0), Ok(()));
    assert_eq!(pt.read(), "b");
}

#[test]
fn insert_out_of_bounds_is_error() {
    let mut pt = PieceTable::new(String::from("abc"));
    assert_eq!(pt.insert("x", 4), Err(OutOfBounds));
    assert_eq!(pt.read(), "abc");
    assert_eq!(pt.insert("x", usize::MAX - 1), Err(OutOfBounds));
    assert_eq!(pt.read(), "abc");
}

#[test]
fn insert_empty_content_is_no_op() {
    let mut pt = PieceTable::new(String::from("abc"));
    assert_eq!(pt.insert("", 1), Ok(()));
    assert_eq!(pt.read(), "abc");
    // no snapshot was recorded, so there is nothing to undo
    pt.undo();
    assert_eq!(pt.read(), "abc");
}

#[test]
fn insert_at_both_boundaries() {
    let mut pt = PieceTable::new(String::from("mid"));
    assert_eq!(pt.insert("<", 0), Ok(()));
    assert_eq!(pt.read(), "<mid");
    let len = pt.len();
    assert_eq!(pt.insert(">", len), Ok(()));
    assert_eq!(pt.read(), "<mid>");
}

#[test]
fn delete_final_char_empties_document() {
    let mut pt = PieceTable::new(String::from("a"));
    assert_eq!(pt.delete(0), Ok(()));
    assert_eq!(pt.read(), "");
    assert!(pt.get_pieces().is_empty());
    assert_eq!(pt.len(), 0);
}

#[test]
fn delete_out_of_range_is_no_op() {
    let mut pt = PieceTable::new(String::new());
    assert_eq!(pt.delete(0), Ok(()));
    assert_eq!(pt.read(), "");
    let mut pt = PieceTable::new(String::from("abc"));
    assert_eq!(pt.delete(3), Ok(()));
    assert_eq!(pt.delete(100), Ok(()));
    assert_eq!(pt.read(), "abc");
    // no snapshot was recorded, so there is nothing to undo
    pt.undo();
    assert_eq!(pt.read(), "abc");
}

#[test]
fn delete_each_piece_position() {
    // first, last and interior characters of a single original piece
    let mut pt = PieceTable::new(String::from("abcd"));
    assert_eq!(pt.delete(0), Ok(()));
    assert_eq!(pt.read(), "bcd");
    let mut pt = PieceTable::new(String::from("abcd"));
    assert_eq!(pt.delete(3), Ok(()));
    assert_eq!(pt.read(), "abc");
    let mut pt = PieceTable::new(String::from("abcd"));
    assert_eq!(pt.delete(2), Ok(()));
    assert_eq!(pt.read(), "abd");
}

#[test]
fn multi_char_insert_splits_piece() {
    let mut pt = PieceTable::new(String::from("ab"));
    assert_eq!(pt.insert("xyz", 1), Ok(()));
    assert_eq!(pt.read(), "axyzb");
}

#[test]
fn round_trip_against_string_oracle() {
    let mut pt = PieceTable::new(String::from("hello\nworld"));
    let mut oracle: Vec<char> = "hello\nworld".chars().collect();
    let edits: Vec<(bool, &str, usize)> = vec![
        (true, "X", 5),
        (true, "!!", 0),
        (false, "", 3),
        (true, "\n\n", 7),
        (false, "", 0),
        (true, "end", 14),
        (false, "", 13),
        (true, "mid", 6),
    ];
    for (is_insert, text, pos) in edits {
        if is_insert {
            assert_eq!(pt.insert(text, pos), Ok(()));
            for (k, c) in text.chars().enumerate() {
                oracle.insert(pos + k, c);
            }
        } else {
            assert_eq!(pt.delete(pos), Ok(()));
            if pos < oracle.len() {
                oracle.remove(pos);
            }
        }
        let expect: String = oracle.iter().collect();
        assert_eq!(pt.read(), expect);
    }
}

#[test]
fn read_is_idempotent() {
    let mut pt = PieceTable::new(String::from("some\ntext"));
    assert_eq!(pt.insert("Q", 2), Ok(()));
    let first = pt.read();
    let second = pt.read();
    assert_eq!(first, second);
}

#[test]
fn piece_lengths_sum_to_document_length() {
    let mut pt = PieceTable::new(String::from("hello\nworld"));
    assert_eq!(pt.insert("X", 5), Ok(()));
    assert_eq!(pt.delete(8), Ok(()));
    assert_eq!(pt.insert("ab", 0), Ok(()));
    let total: usize = pt.get_pieces().iter().map(|p| p.length).sum();
    assert_eq!(total, pt.read().chars().count());
    assert_eq!(total, pt.len());
}

#[test]
fn no_zero_length_piece_after_operations() {
    let mut pt = PieceTable::new(String::from("hello"));
    assert_eq!(pt.insert("X", 2), Ok(()));
    assert_eq!(pt.delete(0), Ok(()));
    assert_eq!(pt.delete(3), Ok(()));
    assert_eq!(pt.insert("YZ", 1), Ok(()));
    pt.undo();
    pt.redo();
    for p in pt.get_pieces() {
        assert!(p.length > 0);
    }
}

#[test]
fn line_lengths_match_split_oracle() {
    // build a document whose lines span several pieces
    let mut pt = PieceTable::new(String::from("one\ntwo\nthree"));
    assert_eq!(pt.insert("AB", 2), Ok(()));
    assert_eq!(pt.insert("\n", 8), Ok(()));
    assert_eq!(pt.delete(11), Ok(()));
    assert_eq!(pt.insert("tail", 14), Ok(()));
    let text = pt.read();
    let lines: Vec<&str> = text.split('\n').collect();
    for (i, line) in lines.iter().enumerate() {
        assert_eq!(pt.get_line_length(i), line.chars().count());
    }
    for i in lines.len()..lines.len() + 3 {
        assert_eq!(pt.get_line_length(i), 0);
    }
}

#[test]
fn line_length_past_end_is_zero() {
    let pt = PieceTable::new(String::from("hello\nworld"));
    assert_eq!(pt.get_line_length(0), 5);
    assert_eq!(pt.get_line_length(1), 5);
    assert_eq!(pt.get_line_length(2), 0);
    assert_eq!(pt.get_line_length(5), 0);
}

#[test]
fn line_length_with_trailing_terminator() {
    let pt = PieceTable::new(String::from("hello\n"));
    assert_eq!(pt.get_line_length(0), 5);
    assert_eq!(pt.get_line_length(1), 0);
}

#[test]
fn undo_at_oldest_snapshot_is_no_op() {
    let mut pt = PieceTable::new(String::from("abc"));
    pt.undo();
    assert_eq!(pt.read(), "abc");
    pt.undo();
    pt.undo();
    assert_eq!(pt.read(), "abc");
}

#[test]
fn redo_at_newest_snapshot_is_no_op() {
    let mut pt = PieceTable::new(String::from("abc"));
    pt.redo();
    assert_eq!(pt.read(), "abc");
    assert_eq!(pt.insert("d", 3), Ok(()));
    pt.redo();
    assert_eq!(pt.read(), "abcd");
}

#[test]
fn new_edit_discards_redo() {
    let mut pt = PieceTable::new(String::from("ab"));
    assert_eq!(pt.insert("1", 0), Ok(()));
    pt.undo();
    assert_eq!(pt.read(), "ab");
    assert_eq!(pt.insert("2", 2), Ok(()));
    assert_eq!(pt.read(), "ab2");
    pt.redo();
    assert_eq!(pt.read(), "ab2");
    pt.undo();
    assert_eq!(pt.read(), "ab");
}

#[test]
fn undo_chain_walks_every_snapshot() {
    let mut pt = PieceTable::new(String::from(""));
    assert_eq!(pt.insert("a", 0), Ok(()));
    assert_eq!(pt.insert("b", 1), Ok(()));
    assert_eq!(pt.delete(0), Ok(()));
    assert_eq!(pt.read(), "b");
    pt.undo();
    assert_eq!(pt.read(), "ab");
    pt.undo();
    assert_eq!(pt.read(), "a");
    pt.undo();
    assert_eq!(pt.read(), "");
    pt.redo();
    pt.redo();
    pt.redo();
    assert_eq!(pt.read(), "b");
}

#[test]
fn pieces_reflect_edit_structure() {
    let mut pt = PieceTable::new(String::from("abc"));
    let pieces = pt.get_pieces();
    assert_eq!(pieces.len(), 1);
    assert_eq!(pieces[0].source, Source::Original);
    assert_eq!(pieces[0].start, 0);
    assert_eq!(pieces[0].length, 3);
    assert_eq!(pt.insert("X", 1), Ok(()));
    let pieces = pt.get_pieces();
    assert_eq!(pieces.len(), 3);
    assert_eq!(pieces[0].source, Source::Original);
    assert_eq!(pieces[0].length, 1);
    assert_eq!(pieces[1].source, Source::Added);
    assert_eq!(pieces[1].start, 0);
    assert_eq!(pieces[1].length, 1);
    assert_eq!(pieces[2].source, Source::Original);
    assert_eq!(pieces[2].start, 1);
    assert_eq!(pieces[2].length, 2);
}

#[test]
fn read_reconstructs_from_both_buffers() {
    // a document whose pieces alternate between the two buffers
    let mut pt = PieceTable::new(String::from("ace"));
    assert_eq!(pt.insert("b", 1), Ok(()));
    assert_eq!(pt.insert("d", 3), Ok(()));
    assert_eq!(pt.read(), "abcde");
    assert_eq!(doc_chars(&pt), vec!['a', 'b', 'c', 'd', 'e']);
}
