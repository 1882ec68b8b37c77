use eired_display::View;

#[test]
fn get_line() {
    let view = View::new(3, 3, vec![None; 3 * 3]);

    assert_eq!(view.get_line(0), &[None, None, None]);
    assert_eq!(view.get_line(1), &[None, None, None]);
    assert_eq!(view.get_line(2), &[None, None, None]);
    assert_eq!(view.get_line(3), &[]);
}

#[test]
fn view_len_and_empty() {
    let view = View::new(2, 2, vec![None; 4]);
    let empty = View::new(0, 5, vec![]);

    assert_eq!(view.len(), 4);
    assert!(!view.is_empty());
    assert_eq!(empty.len(), 0);
    assert!(empty.is_empty());
}
