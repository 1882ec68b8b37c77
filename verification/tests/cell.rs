use eired_display::{Cell, Style};

#[test]
fn default_cell() {
    let cell = Cell::default();

    assert_eq!(
        cell,
        Cell {
            ch: ' ',
            fg: Style::Reset,
            bg: Style::Reset
        }
    )
}

#[test]
fn cell_constructors() {
    assert_eq!(
        Cell::new('A'),
        Cell {
            ch: 'A',
            fg: Style::Reset,
            bg: Style::Reset
        }
    );
    assert_eq!(
        Cell::new_fg('A', Style::Ansi(9)),
        Cell {
            ch: 'A',
            fg: Style::Ansi(9),
            bg: Style::Reset
        }
    );
    assert_eq!(
        Cell::new_bg('B', Style::Ansi(12)),
        Cell {
            ch: 'B',
            fg: Style::Reset,
            bg: Style::Ansi(12)
        }
    );
    assert_eq!(Cell::from('.'), Cell::new('.'));
}

#[test]
fn style_values_compare() {
    assert_eq!(Style::default(), Style::Reset);
    assert_ne!(Style::Ansi(9), Style::Ansi(12));
    assert_ne!(Style::Rgb(1, 2, 3), Style::Rgb(1, 2, 4));
}
