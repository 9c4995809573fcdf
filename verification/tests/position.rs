use seal_lexer::text::width_of;
use seal_lexer::token::Location;

#[test]
fn text_begins_at_line_one_column_one_byte_zero() {
    assert_eq!(Location::start(), Location { line: 1, column: 1, index: 0 });
}

#[test]
fn default_location_is_all_zero() {
    assert_eq!(Location::default(), Location { line: 0, column: 0, index: 0 });
}

#[test]
fn advance_counts_columns_by_character_and_offsets_by_byte() {
    let a = Location::start();
    let b = a.advance('x');
    assert_eq!(b, Location { line: 1, column: 2, index: 1 });
    let c = b.advance('\u{e9}');
    assert_eq!(c, Location { line: 1, column: 3, index: 3 });
    let d = c.advance('\u{20ac}');
    assert_eq!(d, Location { line: 1, column: 4, index: 6 });
    let e = d.advance('\u{1f600}');
    assert_eq!(e, Location { line: 1, column: 5, index: 10 });
}

#[test]
fn advance_over_line_feed_resets_the_column() {
    let a = Location { line: 3, column: 17, index: 40 };
    assert_eq!(a.advance('\n'), Location { line: 4, column: 1, index: 41 });
    assert_eq!(a.advance('\r'), Location { line: 3, column: 18, index: 41 });
}

#[test]
fn width_is_the_utf8_length() {
    for c in ['\0', 'a', '\u{7f}', '\u{80}', '\u{7ff}', '\u{800}', '\u{ffff}', '\u{10000}', '\u{10ffff}'] {
        assert_eq!(width_of(c), c.len_utf8());
    }
    assert_eq!(width_of('\u{7f}'), 1);
    assert_eq!(width_of('\u{80}'), 2);
    assert_eq!(width_of('\u{800}'), 3);
    assert_eq!(width_of('\u{10000}'), 4);
}
