use eired_display::{Annotate, Cell, View, Window};

#[test]
fn create_vterm() {
    let window = Window::from_views(
        3,
        3,
        vec![
            View::new(
                3,
                3,
                vec![
                    Some(Cell::new('.')),
                    Some(Cell::new('.')),
                    Some(Cell::new('.')),
                    Some(Cell::new('.')),
                    Some(Cell::new('.')),
                    Some(Cell::new('.')),
                    Some(Cell::new('.')),
                    Some(Cell::new('.')),
                    Some(Cell::new('.')),
                ],
            )
            .annotate((0, 0)),
            View::new(
                3,
                3,
                vec![
                    Some(Cell::new('O')),
                    Some(Cell::new('O')),
                    Some(Cell::new('O')),
                    Some(Cell::new('O')),
                    Some(Cell::new('O')),
                    Some(Cell::new('O')),
                    Some(Cell::new('O')),
                    Some(Cell::new('O')),
                    Some(Cell::new('O')),
                ],
            )
            .annotate((1, 1)),
        ],
    );

    let res = eired_display::create_virtual_terminal(window.annotate((0, 0))).into_inner();

    assert!(res.len() == 9);
    assert_eq!(
        res.to_vec(),
        vec![
            Some(Cell::new('.')),
            Some(Cell::new('.')),
            Some(Cell::new('.')),
            Some(Cell::new('.')),
            Some(Cell::new('O')),
            Some(Cell::new('O')),
            Some(Cell::new('.')),
            Some(Cell::new('O')),
            Some(Cell::new('O')),
        ]
    )
}

#[test]
fn later_view_punches_holes() {
    let full = View::new(2, 1, vec![Some(Cell::new('a')), Some(Cell::new('b'))]);
    let hole = View::new(2, 1, vec![Some(Cell::new('c')), None]);

    let mut window = Window::new(2, 1);
    window.overlap(full.annotate((0, 0)));
    window.overlap(hole.annotate((0, 0)));

    let res = eired_display::create_virtual_terminal(window.annotate((0, 0))).into_inner();

    assert_eq!(res.to_vec(), vec![Some(Cell::new('c')), None]);
}

#[test]
fn view_below_window_is_skipped() {
    let view = View::new(1, 1, vec![Some(Cell::new('x'))]);

    let mut window = Window::new(2, 2);
    window.overlap(view.annotate((0, 5)));

    let res = eired_display::create_virtual_terminal(window.annotate((0, 0))).into_inner();

    assert_eq!(res.to_vec(), vec![None, None, None, None]);
}

#[test]
fn resize_keeps_views() {
    let view = View::new(1, 1, vec![Some(Cell::new('x'))]);

    let mut window = Window::new(5, 5);
    window.overlap(view.annotate((0, 0)));
    window.resize(1, 1);

    let res = eired_display::create_virtual_terminal(window.annotate((0, 0))).into_inner();

    assert_eq!(res.to_vec(), vec![Some(Cell::new('x'))]);
}
