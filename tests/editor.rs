use code_editor::diff::{Diff, Operation, Strategy};
use code_editor::inlay::{Inline, InlineInlay, InlineWidget, Settings, Size, WrappedInline};
use code_editor::layout::{LayoutEventKind, Point, Rect};
use code_editor::line::{Line, SCALE_ONE};
use code_editor::position::{Length, Position, Selection};
use code_editor::selections::reinsert;
use code_editor::state::{SessionId, State};
use code_editor::text::Text;
use code_editor::wrap::split_whitespace_boundaries;

fn open(text: &str) -> (State, SessionId) {
    let mut state = State::new();
    let id = state.open_session(Text::from_str(text));
    (state, id)
}

fn lines_of(state: &State, id: SessionId) -> Vec<Vec<u8>> {
    state.view(id).text().as_lines().clone()
}

#[test]
fn wrap_breaks_before_second_word() {
    let (mut state, id) = open("hello world");
    state.view_mut(id).wrap_lines(5, 4);
    let view = state.view(id);
    let line = view.line(0);
    assert_eq!(line.soft_breaks, &[6usize][..]);
    assert_eq!(line.row_count(), 2);
    assert_eq!(view.height(), 2 * SCALE_ONE);
}

#[test]
fn wrap_again_changes_nothing() {
    let (mut state, id) = open("one two three four five six\nseven eight nine");
    state.view_mut(id).wrap_lines(8, 4);
    let first: Vec<Vec<usize>> = (0..2).map(|i| state.view(id).line(i).soft_breaks.to_vec()).collect();
    let height = state.view(id).height();
    state.view_mut(id).wrap_lines(8, 4);
    let second: Vec<Vec<usize>> = (0..2).map(|i| state.view(id).line(i).soft_breaks.to_vec()).collect();
    assert_eq!(first, second);
    assert_eq!(state.view(id).height(), height);
    assert_eq!(first[0], vec![8usize, 14, 19]);
    assert_eq!(first[1], vec![6usize, 12]);
}

#[test]
fn wrap_wide_word_stays_whole() {
    let (mut state, id) = open("abcdefghij");
    state.view_mut(id).wrap_lines(3, 4);
    assert!(state.view(id).line(0).soft_breaks.is_empty());
}

#[test]
fn touching_selections_merge() {
    let a = Selection::new(Position::new(0, 2), Position::new(0, 5), None);
    let b = Selection::from_cursor(Position::new(0, 5));
    assert!(a.should_merge(&b));
    let (sels, last) = reinsert(vec![(a, false), (b, true)]);
    assert_eq!(sels.len(), 1);
    assert_eq!(sels[0].start(), Position::new(0, 2));
    assert_eq!(sels[0].end(), Position::new(0, 5));
    assert_eq!(last, 0);
}

#[test]
fn deleting_two_lines_repairs_heights() {
    let (mut state, id) = open("a\nb\nc\nd\ne");
    {
        let mut v = state.view_mut(id);
        v.set_cursor(Position::new(1, 0));
        v.move_cursor_to(true, Position::new(3, 0));
        v.delete();
    }
    let view = state.view(id);
    assert_eq!(view.line_count(), 3);
    assert_eq!(lines_of(&state, id), vec![b"a".to_vec(), b"d".to_vec(), b"e".to_vec()]);
    let view = state.view(id);
    assert_eq!(view.height(), 3 * SCALE_ONE);
    assert_eq!(view.find_first_line_ending_after_y(SCALE_ONE + 1), 1);
    assert_eq!(view.selections(), &[Selection::from_cursor(Position::new(1, 0))][..]);
}

#[test]
fn folding_one_step_and_to_the_end() {
    let (mut state, id) = open("0\n1\n2\n3\n4");
    let mut v = state.view_mut(id);
    v.fold_line(3);
    assert!(v.update_fold_animations());
    assert_eq!(v.as_view().line(3).scale(), 900_000);
    let mut steps = 1;
    loop {
        steps += 1;
        assert!(steps <= 70);
        if !v.update_fold_animations() {
            break;
        }
    }
    assert_eq!(steps, 66);
    assert_eq!(v.as_view().line(3).scale(), 0);
    assert_eq!(v.as_view().height(), 4 * SCALE_ONE);
    assert!(!v.update_fold_animations());
}

#[test]
fn unfolding_reaches_full_scale() {
    let (mut state, id) = open("x\ny");
    let mut v = state.view_mut(id);
    v.fold_line(1);
    while v.update_fold_animations() {}
    v.unfold_line(1);
    assert!(v.update_fold_animations());
    assert_eq!(v.as_view().line(1).scale(), 100_000);
    let mut steps = 1;
    loop {
        steps += 1;
        if !v.update_fold_animations() {
            break;
        }
    }
    assert!(steps <= 66);
    assert_eq!(v.as_view().line(1).scale(), SCALE_ONE);
    assert_eq!(v.as_view().height(), 2 * SCALE_ONE);
}

#[test]
fn refolding_an_unfolding_line() {
    let (mut state, id) = open("x\ny");
    let mut v = state.view_mut(id);
    v.unfold_line(0);
    v.fold_line(0);
    assert!(v.update_fold_animations());
    assert_eq!(v.as_view().line(0).scale(), 900_000);
}

#[test]
fn typing_at_two_cursors() {
    let (mut state, id) = open("ab\ncd");
    {
        let mut v = state.view_mut(id);
        v.set_cursor(Position::new(0, 1));
        v.add_cursor(Position::new(1, 1));
        v.replace(Text::from_str("XY"));
    }
    assert_eq!(lines_of(&state, id), vec![b"aXYb".to_vec(), b"cXYd".to_vec()]);
    let view = state.view(id);
    assert_eq!(
        view.selections(),
        &[
            Selection::from_cursor(Position::new(0, 3)),
            Selection::from_cursor(Position::new(1, 3)),
        ][..]
    );
}

#[test]
fn enter_splits_line_and_keeps_arrays_in_step() {
    let (mut state, id) = open("hello");
    {
        let mut v = state.view_mut(id);
        v.set_cursor(Position::new(0, 2));
        v.enter();
    }
    assert_eq!(lines_of(&state, id), vec![b"he".to_vec(), b"llo".to_vec()]);
    let view = state.view(id);
    assert_eq!(view.line(1).scale(), SCALE_ONE);
    assert_eq!(view.height(), 2 * SCALE_ONE);
    assert_eq!(view.selections()[0].cursor, Position::new(1, 0));
}

#[test]
fn backspace_joins_lines_and_removes_characters() {
    let (mut state, id) = open("ab\ncd");
    {
        let mut v = state.view_mut(id);
        v.set_cursor(Position::new(1, 0));
        v.backspace();
    }
    assert_eq!(lines_of(&state, id), vec![b"abcd".to_vec()]);
    {
        let mut v = state.view_mut(id);
        v.backspace();
    }
    assert_eq!(lines_of(&state, id), vec![b"acd".to_vec()]);
    assert_eq!(state.view(id).selections()[0].cursor, Position::new(0, 1));
}

#[test]
fn delete_removes_a_whole_multibyte_character() {
    let (mut state, id) = open("\u{e9}x");
    {
        let mut v = state.view_mut(id);
        v.set_cursor(Position::new(0, 0));
        v.delete();
    }
    assert_eq!(lines_of(&state, id), vec![b"x".to_vec()]);
}

#[test]
fn delete_at_end_of_text_does_nothing() {
    let (mut state, id) = open("ab");
    {
        let mut v = state.view_mut(id);
        v.set_cursor(Position::new(0, 2));
        v.delete();
    }
    assert_eq!(lines_of(&state, id), vec![b"ab".to_vec()]);
}

#[test]
fn cursors_moving_into_each_other_merge() {
    let (mut state, id) = open("abc");
    let mut v = state.view_mut(id);
    v.set_cursor(Position::new(0, 0));
    v.add_cursor(Position::new(0, 1));
    v.move_cursors_left(false);
    let view = v.as_view();
    assert_eq!(view.selections(), &[Selection::from_cursor(Position::new(0, 0))][..]);
}

#[test]
fn selections_stay_sorted_and_apart() {
    let (mut state, id) = open("abcdefgh\nijklmnop");
    let mut v = state.view_mut(id);
    v.set_cursor(Position::new(1, 4));
    v.add_cursor(Position::new(0, 2));
    v.add_cursor(Position::new(0, 6));
    v.move_cursors_right(true);
    v.move_cursor_to(true, Position::new(1, 5));
    let view = v.as_view();
    let sels = view.selections();
    for w in sels.windows(2) {
        assert!(w[0].start() < w[1].start());
        assert!(!w[0].should_merge(&w[1]));
    }
    assert_eq!(sels.len(), 2);
    assert_eq!(sels[1].start(), Position::new(0, 6));
    assert_eq!(sels[1].end(), Position::new(1, 5));
}

#[test]
fn adding_a_cursor_inside_a_selection_replaces_it() {
    let (mut state, id) = open("abcdef");
    let mut v = state.view_mut(id);
    v.set_cursor(Position::new(0, 1));
    v.move_cursor_to(true, Position::new(0, 4));
    v.add_cursor(Position::new(0, 2));
    assert_eq!(v.as_view().selections(), &[Selection::from_cursor(Position::new(0, 2))][..]);
}

#[test]
fn move_right_crosses_line_ends() {
    let (mut state, id) = open("a\nb");
    let mut v = state.view_mut(id);
    v.set_cursor(Position::new(0, 1));
    v.move_cursors_right(false);
    assert_eq!(v.as_view().selections()[0].cursor, Position::new(1, 0));
    v.move_cursors_left(true);
    let s = v.as_view().selections()[0];
    assert_eq!(s.anchor, Position::new(1, 0));
    assert_eq!(s.cursor, Position::new(0, 1));
}

#[test]
fn position_moves_past_text_inserted_before_it() {
    let mut diff = Diff::new();
    diff.push(Operation::Retain(Length::new(0, 2)));
    diff.push(Operation::Insert(Text::from_str("xyz")));
    let p = Position::new(0, 2);
    assert_eq!(p.apply_diff(&diff, Strategy::InsertBefore), Position::new(0, 5));
    assert_eq!(p.apply_diff(&diff, Strategy::InsertAfter), Position::new(0, 2));
    let q = Position::new(0, 4);
    assert_eq!(q.apply_diff(&diff, Strategy::InsertAfter), Position::new(0, 7));
}

#[test]
fn position_in_deleted_text_goes_to_its_start() {
    let mut diff = Diff::new();
    diff.push(Operation::Retain(Length::new(0, 1)));
    diff.push(Operation::Delete(Length::new(1, 1)));
    assert_eq!(Position::new(1, 0).apply_diff(&diff, Strategy::InsertBefore), Position::new(0, 1));
    assert_eq!(Position::new(1, 3).apply_diff(&diff, Strategy::InsertBefore), Position::new(0, 3));
}

#[test]
fn applying_a_diff_to_text() {
    let mut text = Text::from_str("abc\ndef");
    let mut diff = Diff::new();
    diff.push(Operation::Retain(Length::new(0, 1)));
    diff.push(Operation::Delete(Length::new(1, 1)));
    diff.push(Operation::Insert(Text::from_str("X\nY")));
    text.apply_diff(&diff);
    assert_eq!(text.as_lines(), &vec![b"aX".to_vec(), b"Yef".to_vec()]);
}

#[test]
fn inline_column_count_counts_tabs_and_widgets() {
    let text = Inline::Text { is_inlay: false, text: "a\tb\u{e9}".as_bytes() };
    assert_eq!(text.column_count(4), 7);
    let widget = Inline::Widget(InlineWidget { id: 1, column_count: 3 });
    assert_eq!(widget.column_count(4), 3);
}

#[test]
fn inlines_splice_inlays_into_text() {
    let inlays = vec![
        (2usize, InlineInlay::Text("<>".to_string())),
        (4usize, InlineInlay::Widget(InlineWidget { id: 7, column_count: 2 })),
    ];
    let line = Line {
        text: b"abcdef",
        inline_inlays: &inlays,
        soft_breaks: &[],
        fold_column_index: 0,
        scale: SCALE_ONE,
    };
    let inlines = line.inlines().into_vec();
    assert_eq!(inlines.len(), 5);
    match inlines[1] {
        Inline::Text { is_inlay, text } => {
            assert!(is_inlay);
            assert_eq!(text, b"<>");
        }
        _ => panic!("expected the text inlay"),
    }
    match inlines[4] {
        Inline::Text { is_inlay, text } => {
            assert!(!is_inlay);
            assert_eq!(text, b"ef");
        }
        _ => panic!("expected the rest of the text"),
    }
    assert_eq!(line.byte_index_to_inlay_byte_index(3), 5);
    assert_eq!(line.byte_index_to_inlay_byte_index(1), 1);
}

#[test]
fn whitespace_pieces_keep_trailing_space() {
    let pieces = split_whitespace_boundaries(b"ab  cd\te", 4);
    assert_eq!(pieces, vec![(4, 4), (3, 6), (1, 1)]);
}

#[test]
fn rows_and_fold_columns() {
    let breaks = [3usize];
    let line = Line {
        text: b"abcdef",
        inline_inlays: &[],
        soft_breaks: &breaks,
        fold_column_index: 2,
        scale: 500_000,
    };
    assert!(line.is_at_first_row(2));
    assert!(!line.is_at_first_row(3));
    assert!(line.is_at_last_row(4));
    assert_eq!(line.height(), 1_000_000);
    assert_eq!(line.column_index_to_x(4), 2 * SCALE_ONE + 2 * 500_000);
}

#[test]
fn settings_are_kept() {
    let state = State::with_settings(Settings::new(8));
    assert_eq!(state.settings().tab_column_count, 8);
}

#[test]
fn wrapped_inlines_cut_text_at_soft_breaks() {
    let breaks = [3usize];
    let line = Line {
        text: b"abcdef",
        inline_inlays: &[],
        soft_breaks: &breaks,
        fold_column_index: 0,
        scale: SCALE_ONE,
    };
    let w = line.wrapped_inlines().into_vec();
    assert_eq!(w.len(), 3);
    assert!(matches!(w[1], WrappedInline::SoftBreak));
    match w[2] {
        WrappedInline::Inline(Inline::Text { text, .. }) => assert_eq!(text, b"def"),
        _ => panic!("expected the second row's text"),
    }
    assert_eq!(line.column_count(4), 3);
    assert_eq!(line.width(4), 3 * SCALE_ONE);
}

#[test]
fn row_and_column_conversions_round_trip() {
    let breaks = [4usize];
    let line = Line {
        text: b"ab\tcdef",
        inline_inlays: &[],
        soft_breaks: &breaks,
        fold_column_index: 0,
        scale: SCALE_ONE,
    };
    assert_eq!(line.byte_index_to_row_column_index(2, 4), (0, 2));
    assert_eq!(line.byte_index_to_row_column_index(3, 4), (0, 6));
    assert_eq!(line.byte_index_to_row_column_index(5, 4), (1, 1));
    assert_eq!(line.row_column_index_to_byte_index(1, 1, 4), 5);
    assert_eq!(line.row_column_index_to_byte_index(0, 3, 4), 2);
    assert_eq!(line.row_column_index_to_byte_index(0, 9, 4), 3);
    assert_eq!(line.row_column_index_to_byte_index(1, 9, 4), 7);
}

#[test]
fn moving_up_and_down_keeps_the_column() {
    let (mut state, id) = open("abcdef\nab\nabcdef");
    let mut v = state.view_mut(id);
    v.set_cursor(Position::new(0, 4));
    v.move_cursors_down(false);
    assert_eq!(v.as_view().selections()[0].cursor, Position::new(1, 2));
    v.move_cursors_down(false);
    assert_eq!(v.as_view().selections()[0].cursor, Position::new(2, 4));
    v.move_cursors_down(false);
    assert_eq!(v.as_view().selections()[0].cursor, Position::new(2, 6));
    v.move_cursors_up(true);
    let s = v.as_view().selections()[0];
    assert_eq!(s.anchor, Position::new(2, 6));
    assert_eq!(s.cursor, Position::new(1, 2));
    v.set_cursor(Position::new(0, 3));
    v.move_cursors_up(false);
    assert_eq!(v.as_view().selections()[0].cursor, Position::new(0, 0));
}

#[test]
fn layout_walks_lines_characters_and_breaks() {
    let (state, id) = open("ab\nc");
    let view = state.view(id);
    let events = view.layout(0, 2);
    assert_eq!(events.len(), 7);
    assert!(matches!(events[0].kind, LayoutEventKind::Line { is_inlay: false, .. }));
    assert_eq!(events[2].rect, Rect::new(Point::new(SCALE_ONE, 0), Size { width: SCALE_ONE, height: SCALE_ONE }));
    assert!(matches!(events[3].kind, LayoutEventKind::Break { is_soft: false }));
    assert_eq!(events[3].rect.origin, Point::new(2 * SCALE_ONE, 0));
    assert_eq!(events[4].rect.origin.y, SCALE_ONE);
    assert_eq!(view.width(4), 2 * SCALE_ONE);
    assert_eq!(view.blocks(0, 2).into_vec().len(), 2);
    let mut lines = view.lines(0, 2);
    assert_eq!(lines.next().unwrap().text(), b"ab");
    assert_eq!(lines.next().unwrap().text(), b"c");
    assert!(lines.next().is_none());
}

#[test]
fn pick_finds_the_nearest_offset() {
    let (state, id) = open("abc\nde");
    let view = state.view(id);
    assert_eq!(view.pick(Point::new(SCALE_ONE / 4, SCALE_ONE / 2)), Some(Position::new(0, 0)));
    assert_eq!(view.pick(Point::new(SCALE_ONE * 3 / 4, SCALE_ONE / 2)), Some(Position::new(0, 1)));
    assert_eq!(view.pick(Point::new(SCALE_ONE * 9, SCALE_ONE / 2)), Some(Position::new(0, 3)));
    assert_eq!(view.pick(Point::new(SCALE_ONE + 1, SCALE_ONE + 10)), Some(Position::new(1, 1)));
    assert_eq!(view.pick(Point::new(0, 5 * SCALE_ONE)), None);
    assert_eq!(view.find_first_line_starting_after_y(SCALE_ONE / 2), 1);
}

#[test]
fn lines_and_counts_of_a_view() {
    let (state, id) = open("x\nyy\nzzz");
    let view = state.view(id);
    assert_eq!(view.line_count(), 3);
    let lines = view.lines(1, 3).into_vec();
    assert_eq!(lines.len(), 2);
    assert_eq!(lines[1].text(), b"zzz");
    assert_eq!(view.settings().tab_column_count, 4);
}

#[test]
fn carried_position_keeps_the_text_after_it() {
    let mut text = Text::from_str("hello\nworld");
    let mut diff = Diff::new();
    diff.push(Operation::Retain(Length::new(0, 1)));
    diff.push(Operation::Delete(Length::new(0, 3)));
    diff.push(Operation::Insert(Text::from_str("EY\nHE")));
    let p = Position::new(1, 2);
    let carried = p.apply_diff(&diff, Strategy::InsertBefore);
    text.apply_diff(&diff);
    assert_eq!(text.as_lines(), &vec![b"hEY".to_vec(), b"HEo".to_vec(), b"world".to_vec()]);
    assert_eq!(carried, Position::new(2, 2));
    assert_eq!(&text.as_lines()[2][2..], b"rld");
    let before = Position::new(0, 0).apply_diff(&diff, Strategy::InsertBefore);
    assert_eq!(before, Position::new(0, 0));
    let inside_end = Position::new(0, 4).apply_diff(&diff, Strategy::InsertBefore);
    assert_eq!(inside_end, Position::new(1, 2));
    assert_eq!(&text.as_lines()[1][2..], b"o");
}

#[test]
fn wide_white_space_ends_a_wrapping_piece() {
    let text = "ab\u{3000}cd";
    let pieces = split_whitespace_boundaries(text.as_bytes(), 4);
    assert_eq!(pieces, vec![(5, 3), (2, 2)]);
    let (mut state, id) = open(text);
    state.view_mut(id).wrap_lines(3, 4);
    assert_eq!(state.view(id).line(0).soft_breaks, &[5usize][..]);
}

#[test]
fn a_new_session_has_one_cursor_and_full_scales() {
    let (state, id) = open("a\nb\nc");
    let view = state.view(id);
    assert_eq!(view.selections(), &[Selection::from_cursor(Position::origin())][..]);
    for i in 0..3 {
        assert_eq!(view.line(i).scale(), SCALE_ONE);
        assert_eq!(view.line(i).row_count(), 1);
    }
    assert_eq!(view.height(), 3 * SCALE_ONE);
}

#[test]
fn last_fold_step_reports_nothing_left() {
    let (mut state, id) = open("a\nb");
    let mut v = state.view_mut(id);
    v.fold_line(0);
    let mut calls = 0;
    while v.update_fold_animations() {
        calls += 1;
    }
    assert_eq!(calls, 65);
    assert_eq!(v.as_view().line(0).scale(), 0);
}

#[test]
fn inserted_lines_get_fresh_data_and_others_keep_theirs() {
    let (mut state, id) = open("a\nb\nc");
    let mut v = state.view_mut(id);
    v.fold_line(2);
    v.update_fold_animations();
    v.set_cursor(Position::new(0, 1));
    v.replace(Text::from_str("x\ny"));
    let view = v.as_view();
    assert_eq!(view.line_count(), 4);
    assert_eq!(view.line(0).scale(), SCALE_ONE);
    assert_eq!(view.line(1).scale(), SCALE_ONE);
    assert_eq!(view.line(2).scale(), SCALE_ONE);
    assert_eq!(view.line(3).scale(), 900_000);
    assert_eq!(view.selections(), &[Selection::from_cursor(Position::new(1, 1))][..]);
}
