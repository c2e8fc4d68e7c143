use news_cli::nav::{adjust_viewport, arrow_dispatch, dispatch_first_key, initial_selection,
    page_len, parse_selection, tab_target, ArrowStep, FirstKey, KeyInput, MenuChoice,
    SelectionError};

#[test]
fn tab_jump_and_wrap() {
    let headers = vec![0usize, 12, 30];
    assert_eq!(tab_target(&headers, 5, 40), 12);
    assert_eq!(tab_target(&headers, 31, 40), 0);
    assert_eq!(tab_target(&headers, 12, 40), 30);
    assert_eq!(tab_target(&headers, 0, 40), 12);
    // without headers the selection stays put
    assert_eq!(tab_target(&Vec::new(), 5, 40), 5);
    // the target is clamped to the row range
    assert_eq!(tab_target(&vec![0, 50], 5, 40), 39);
}

#[test]
fn viewport_invariant_over_key_sequences() {
    let n: usize = 25;
    let headers = vec![0usize, 8, 16];
    let keys = [
        KeyInput::Down,
        KeyInput::Down,
        KeyInput::PageDown,
        KeyInput::PageDown,
        KeyInput::End,
        KeyInput::Up,
        KeyInput::PageUp,
        KeyInput::Home,
        KeyInput::Tab,
        KeyInput::PageDown,
        KeyInput::Down,
        KeyInput::Tab,
        KeyInput::End,
        KeyInput::PageUp,
        KeyInput::Up,
    ];
    let rows: usize = 10;
    let page = page_len(rows, true, n);
    let mut sel: usize = 0;
    let mut top: usize = 0;
    for key in keys {
        top = adjust_viewport(sel, top, page);
        assert!(top <= sel && sel < top + page && sel < n);
        match arrow_dispatch(sel, key, n, page, &headers) {
            ArrowStep::Moved(s) => sel = s,
            ArrowStep::Done(_) => panic!("navigation key must not resolve the menu"),
        }
        assert!(sel < n);
    }
    top = adjust_viewport(sel, top, page);
    assert!(top <= sel && sel < top + page);
}

#[test]
fn arrow_mode_moves() {
    let headers: Vec<usize> = Vec::new();
    assert_eq!(
        arrow_dispatch(0, KeyInput::Up, 5, 3, &headers),
        ArrowStep::Moved(0)
    );
    assert_eq!(
        arrow_dispatch(4, KeyInput::Down, 5, 3, &headers),
        ArrowStep::Moved(4)
    );
    assert_eq!(
        arrow_dispatch(2, KeyInput::Down, 5, 3, &headers),
        ArrowStep::Moved(3)
    );
    assert_eq!(
        arrow_dispatch(2, KeyInput::Home, 5, 3, &headers),
        ArrowStep::Moved(0)
    );
    assert_eq!(
        arrow_dispatch(2, KeyInput::End, 5, 3, &headers),
        ArrowStep::Moved(4)
    );
    // a page is viewport height minus one, at least one
    assert_eq!(
        arrow_dispatch(4, KeyInput::PageUp, 9, 4, &headers),
        ArrowStep::Moved(1)
    );
    assert_eq!(
        arrow_dispatch(4, KeyInput::PageDown, 9, 4, &headers),
        ArrowStep::Moved(7)
    );
}

#[test]
fn arrow_mode_resolutions() {
    let headers: Vec<usize> = Vec::new();
    assert_eq!(
        arrow_dispatch(3, KeyInput::Enter, 5, 3, &headers),
        ArrowStep::Done(MenuChoice::Index(3))
    );
    assert_eq!(
        arrow_dispatch(3, KeyInput::Character('q'), 5, 3, &headers),
        ArrowStep::Done(MenuChoice::Quit)
    );
    assert_eq!(
        arrow_dispatch(3, KeyInput::Character('Q'), 5, 3, &headers),
        ArrowStep::Done(MenuChoice::Quit)
    );
    assert_eq!(
        arrow_dispatch(3, KeyInput::Character('b'), 5, 3, &headers),
        ArrowStep::Done(MenuChoice::Back)
    );
    assert_eq!(
        arrow_dispatch(3, KeyInput::Escape, 5, 3, &headers),
        ArrowStep::Done(MenuChoice::Back)
    );
    // other characters are ignored in arrow mode
    assert_eq!(
        arrow_dispatch(3, KeyInput::Character('x'), 5, 3, &headers),
        ArrowStep::Moved(3)
    );
}

#[test]
fn viewport_scrolling_follows_selection() {
    // selection below the window: the window advances so it is last visible
    assert_eq!(adjust_viewport(7, 0, 5), 3);
    // selection above the window: the window follows it up
    assert_eq!(adjust_viewport(1, 3, 5), 1);
    // selection inside the window: nothing moves
    assert_eq!(adjust_viewport(4, 3, 5), 3);
}

#[test]
fn page_len_reserves_rows_and_clamps() {
    // terminal of 10 rows, header shown: 3 reserved lines
    assert_eq!(page_len(10, true, 100), 7);
    assert_eq!(page_len(10, false, 100), 8);
    // never fewer than three rows, even on a tiny terminal
    assert_eq!(page_len(4, true, 100), 3);
    // never more rows than items
    assert_eq!(page_len(50, false, 5), 5);
}

#[test]
fn initial_selection_clamps_default() {
    assert_eq!(initial_selection(None, 5), 0);
    assert_eq!(initial_selection(Some(2), 5), 2);
    assert_eq!(initial_selection(Some(9), 5), 4);
}

#[test]
fn typed_selection_parsing() {
    let items = ["a", "b", "c"];
    assert_eq!(
        parse_selection("2", &items, None),
        Ok(MenuChoice::Index(1))
    );
    assert_eq!(
        parse_selection("  3  ", &items, None),
        Ok(MenuChoice::Index(2))
    );
    assert_eq!(parse_selection("q", &items, None), Ok(MenuChoice::Quit));
    assert_eq!(parse_selection("Q", &items, None), Ok(MenuChoice::Quit));
    assert_eq!(parse_selection(" b ", &items, None), Ok(MenuChoice::Back));
    assert_eq!(
        parse_selection("", &items, Some(1)),
        Ok(MenuChoice::Index(1))
    );
    assert_eq!(
        parse_selection("", &items, None),
        Err(SelectionError::NoSelection)
    );
    assert_eq!(
        parse_selection("0", &items, None),
        Err(SelectionError::OutOfRange)
    );
    assert_eq!(
        parse_selection("4", &items, None),
        Err(SelectionError::OutOfRange)
    );
    assert_eq!(
        parse_selection("abc", &items, None),
        Err(SelectionError::InvalidSelection)
    );
    assert_eq!(
        parse_selection("99999999999999999999999999", &items, None),
        Err(SelectionError::InvalidSelection)
    );
    assert_eq!(
        parse_selection("+2", &items, None),
        Ok(MenuChoice::Index(1))
    );
}

#[test]
fn first_key_dispatch() {
    assert_eq!(dispatch_first_key(KeyInput::Up, None), FirstKey::Arrow);
    assert_eq!(dispatch_first_key(KeyInput::PageDown, None), FirstKey::Arrow);
    assert_eq!(
        dispatch_first_key(KeyInput::Character('q'), None),
        FirstKey::Quit
    );
    assert_eq!(
        dispatch_first_key(KeyInput::Character('B'), None),
        FirstKey::Back
    );
    assert_eq!(
        dispatch_first_key(KeyInput::Enter, Some(0)),
        FirstKey::Chosen(0)
    );
    assert_eq!(dispatch_first_key(KeyInput::Enter, None), FirstKey::NoDefault);
    assert_eq!(
        dispatch_first_key(KeyInput::Character('7'), None),
        FirstKey::TypeSeeded('7')
    );
    assert_eq!(
        dispatch_first_key(KeyInput::Character('\u{1b}'), None),
        FirstKey::TypePlain
    );
    assert_eq!(dispatch_first_key(KeyInput::Other, None), FirstKey::TypePlain);
}
