use eired_display::{Annotate, Cell, DrawableSpan, View, Window};

#[test]
fn convert_to_cmds() {
    let window = Window::from_views(
        3,
        3,
        vec![
            View::new(
                3,
                3,
                vec![
                    Some(Cell::new('.')),
                    Some(Cell::new('.')),
                    Some(Cell::new('.')),
                    Some(Cell::new('.')),
                    Some(Cell::new('.')),
                    Some(Cell::new('.')),
                    Some(Cell::new('.')),
                    Some(Cell::new('.')),
                    Some(Cell::new('.')),
                ],
            )
            .annotate((0, 0)),
            View::new(
                3,
                3,
                vec![
                    Some(Cell::new('O')),
                    Some(Cell::new('O')),
                    Some(Cell::new('O')),
                    Some(Cell::new('O')),
                    Some(Cell::new('O')),
                    Some(Cell::new('O')),
                    Some(Cell::new('O')),
                    Some(Cell::new('O')),
                    Some(Cell::new('O')),
                ],
            )
            .annotate((1, 1)),
        ],
    );

    let res = eired_display::create_virtual_terminal(window.annotate((0, 0)));

    let res = eired_display::convert_to_spans(res);

    assert!(res.len() == 3);
    assert_eq!(
        res[0],
        DrawableSpan::new((0, 0), vec![Cell::new('.'), Cell::new('.'), Cell::new('.')])
    );
    assert_eq!(
        res[1],
        DrawableSpan::new((0, 1), vec![Cell::new('.'), Cell::new('O'), Cell::new('O')])
    );
    assert_eq!(
        res[2],
        DrawableSpan::new((0, 2), vec![Cell::new('.'), Cell::new('O'), Cell::new('O')])
    );
}

#[test]
fn convert_to_cmds_with_offset() {
    let window = Window::from_views(
        3,
        3,
        vec![
            View::new(
                3,
                3,
                vec![
                    Some(Cell::new('.')),
                    Some(Cell::new('.')),
                    Some(Cell::new('.')),
                    Some(Cell::new('.')),
                    Some(Cell::new('.')),
                    Some(Cell::new('.')),
                    Some(Cell::new('.')),
                    Some(Cell::new('.')),
                    Some(Cell::new('.')),
                ],
            )
            .annotate((0, 0)),
            View::new(
                3,
                3,
                vec![
                    Some(Cell::new('O')),
                    Some(Cell::new('O')),
                    Some(Cell::new('O')),
                    Some(Cell::new('O')),
                    Some(Cell::new('O')),
                    Some(Cell::new('O')),
                    Some(Cell::new('O')),
                    Some(Cell::new('O')),
                    Some(Cell::new('O')),
                ],
            )
            .annotate((1, 1)),
        ],
    );

    let res = eired_display::create_virtual_terminal(window.annotate((1, 1)));

    let res = eired_display::convert_to_spans(res);

    assert!(res.len() == 3);
    assert_eq!(
        res[0],
        DrawableSpan::new((1, 1), vec![Cell::new('.'), Cell::new('.'), Cell::new('.')])
    );
    assert_eq!(
        res[1],
        DrawableSpan::new((1, 2), vec![Cell::new('.'), Cell::new('O'), Cell::new('O')])
    );
    assert_eq!(
        res[2],
        DrawableSpan::new((1, 3), vec![Cell::new('.'), Cell::new('O'), Cell::new('O')])
    );
}

#[test]
fn commands_skip_empty_cells() {
    let view = View::new(
        5,
        1,
        vec![
            Some(Cell::new('a')),
            None,
            Some(Cell::new('b')),
            Some(Cell::new('c')),
            None,
        ],
    );

    let mut window = Window::new(5, 1);
    window.overlap(view.annotate((0, 0)));

    let vterm = eired_display::create_virtual_terminal(window.annotate((0, 0)));
    let cmds = eired_display::convert_to_spans(vterm);

    assert_eq!(cmds.len(), 2);
    assert_eq!(cmds[0], DrawableSpan::new((0, 0), vec![Cell::new('a')]));
    assert_eq!(
        cmds[1],
        DrawableSpan::new((2, 0), vec![Cell::new('b'), Cell::new('c')])
    );
}

#[test]
fn command_accessors() {
    let cmd = DrawableSpan::new((4, 7), vec![Cell::new('z')]);

    assert_eq!(cmd.moveto(), (4, 7));
    assert_eq!(cmd.cells().as_slice(), &[Cell::new('z')]);
}

#[test]
fn empty_frame_gives_no_commands() {
    let window = Window::new(3, 2);
    let vterm = eired_display::create_virtual_terminal(window.annotate((0, 0)));
    let cmds = eired_display::convert_to_spans(vterm);

    assert!(cmds.is_empty());
}
