use eired_display::{Cell, Span, Style};

#[test]
fn check_bg_all() {
    let span = Span::new_with_bg("Hello, World!", Style::Ansi(9));

    for i in 0..span.len() as usize {
        assert!(span.get(i).is_some_and(|s| s.bg == Style::Ansi(9)));
    }
}

#[test]
fn check_fg_all() {
    let span = Span::new_with_fg("Hello, World!", Style::Ansi(9));

    for i in 0..span.len() as usize {
        assert!(span.get(i).is_some_and(|s| s.fg == Style::Ansi(9)));
    }
}

#[test]
fn replace_at() {
    let mut span = Span::new_with_fg("Hello, World!", Style::Ansi(9));

    span.replace_at(5, Cell::new_fg(',', Style::Ansi(12)));

    let mut new_span = Span::default();

    for c in "Hello, World!".chars() {
        if c == ',' {
            new_span.push_back(Cell::new_fg(c, Style::Ansi(12)));
        } else {
            new_span.push_back(Cell::new_fg(c, Style::Ansi(9)));
        }
    }

    assert_eq!(span, new_span);
}

#[test]
fn init_by() {
    let span1 = Span::new_with_bg("A", Style::Ansi(9));
    let span2 = Span::new_with_fg("A", Style::Ansi(9));
    let span3 = Span::from("A");
    let span4 = Span::from("A".to_string());
    let span5 = Span::from_vec(vec![Cell::new('A')]);

    assert!(!span1.is_empty());
    assert!(!span2.is_empty());
    assert!(!span3.is_empty());
    assert!(!span4.is_empty());
    assert!(!span5.is_empty());
}

#[test]
fn truncate_front() {
    let mut span = Span::new_with_fg("Hello, World!", Style::Ansi(9));
    let new_span = Span::new_with_fg("World!", Style::Ansi(9));

    span.truncate_front(7);

    assert_eq!(span, new_span);
}

#[test]
fn truncate_back() {
    let mut span = Span::new_with_fg("Hello, World!", Style::Ansi(9));
    let new_span = Span::new_with_fg("Hello,", Style::Ansi(9));

    span.truncate_back(7);

    assert_eq!(span, new_span);
}

#[test]
fn split() {
    let span = Span::from("Hello, World!");

    let parts = span.split_by(&[5, 7]);

    assert_eq!(parts.len(), 3);
    assert_eq!(parts[0], Some(Span::from("Hello")));
    assert_eq!(parts[1], Some(Span::from(", ")));
    assert_eq!(parts[2], Some(Span::from("World!")));
}

#[test]
fn split_round_trip() {
    let span = Span::from("Hello, World!");

    let mut parts = span.split_by(&[5, 7]);

    let mut rebuilt = Span::default();
    for part in parts.iter_mut() {
        if let Some(fragment) = part.as_mut() {
            rebuilt.append(fragment);
        }
    }

    assert_eq!(rebuilt, Span::from("Hello, World!"));
}

#[test]
fn split_offset_beyond_length() {
    let origin = Span::from("One, Two, Three");

    let spans = origin.split_by(&[5, 10, 99]);

    assert_eq!(spans.len(), 4);
    assert_eq!(spans[0], Some(Span::from("One, ")));
    assert_eq!(spans[1], Some(Span::from("Two, ")));
    assert_eq!(spans[2], None);
    assert_eq!(spans[3], None);
}

#[test]
fn push_pop_ends() {
    let mut span = Span::from("bc");

    span.push_front(Cell::new('a'));
    span.push_back(Cell::new('d'));
    assert_eq!(span, Span::from("abcd"));

    assert_eq!(span.pop_front(), Some(Cell::new('a')));
    assert_eq!(span.pop_back(), Some(Cell::new('d')));
    assert_eq!(span, Span::from("bc"));
}

#[test]
fn pop_empty_is_noop() {
    let mut span = Span::default();

    assert_eq!(span.pop_front(), None);
    assert_eq!(span.pop_back(), None);
    assert!(span.is_empty());
}

#[test]
fn truncate_beyond_length_empties() {
    let mut front = Span::from("abc");
    front.truncate_front(99);
    assert!(front.is_empty());

    let mut back = Span::from("abc");
    back.truncate_back(99);
    assert!(back.is_empty());
}

#[test]
fn append_drains_source() {
    let mut span = Span::from("Hello,");
    let mut source = Span::from(" World!");

    span.append(&mut source);

    assert_eq!(span, Span::from("Hello, World!"));
    assert!(source.is_empty());
}

#[test]
fn push_all_appends() {
    let mut span = Span::from("Hello, ");

    span.push_all(Span::from("World!"));

    assert_eq!(span, Span::from("Hello, World!"));
}

#[test]
fn get_mut_edits_cell() {
    let mut span = Span::from("Hello. World?");

    span.get_mut(5).unwrap().ch = ',';
    span.get_mut(12).unwrap().ch = '!';
    assert!(span.get_mut(13).is_none());

    assert_eq!(span, Span::from("Hello, World!"));
}

#[test]
fn replace_at_out_of_range() {
    let mut span = Span::from("ab");

    assert_eq!(span.replace_at(5, Cell::new('x')), None);
    assert_eq!(span, Span::from("ab"));
}

#[test]
fn to_vec_copies_cells() {
    let span = Span::from("Hi!");

    let res = span.to_vec();

    assert_eq!(res[0], Cell::new('H'));
    assert_eq!(res[1], Cell::new('i'));
    assert_eq!(res[2], Cell::new('!'));
}
