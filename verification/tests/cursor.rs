use constellation::cursor::{
    decode, encode, next_line, next_text_line, note_line, resolve, slice, Cursor, CursorError,
    Page, CURSOR_OFFSET_MAX,
};

#[test]
fn a_cursor_round_trips() {
    let encoded = encode(120, 7);

    assert_eq!(encoded, "120.7", "the encoding stays human-readable");
    assert_eq!(decode(&encoded), Ok(Cursor { generation: 7, offset: 120 }));
}

#[test]
fn a_malformed_cursor_is_rejected_with_a_reason() {
    assert_eq!(decode("120"), Err(CursorError::WrongShape));
    assert_eq!(decode("120.7.3"), Err(CursorError::WrongShape));
    assert_eq!(decode("abc.7"), Err(CursorError::Malformed));
    assert_eq!(decode("120.xyz"), Err(CursorError::Malformed));
    assert_eq!(decode(&format!("{}.1", CURSOR_OFFSET_MAX + 1)), Err(CursorError::OffsetTooLarge));
}

#[test]
fn an_offset_of_any_length_is_too_large_rather_than_malformed() {
    assert_eq!(decode("99999999999999999999999.1"), Err(CursorError::OffsetTooLarge));
    assert_eq!(decode("99999999999999999999999.x"), Err(CursorError::Malformed));
    assert_eq!(decode("9x.1"), Err(CursorError::Malformed));
    assert_eq!(decode(".1"), Err(CursorError::Malformed));
    assert_eq!(decode("1.99999999999999999999999"), Err(CursorError::Malformed));
}

#[test]
fn a_matching_generation_resumes_where_it_left_off() {
    let page = resolve(Some("120.7"), 7);

    assert_eq!(page.offset, 120, "the page resumes at the cursor's offset");
    assert!(page.note.is_none(), "an honoured cursor needs no explanation");
}

#[test]
fn a_stale_cursor_restarts_and_says_so() {
    let page = resolve(Some("120.7"), 8);

    assert_eq!(page.offset, 0, "a stale cursor restarts rather than paging a shifted set");

    assert!(
        page.note.as_deref().is_some_and(|note| note.contains("expired")),
        "and the restart is reported, never silent: {:?}",
        page.note,
    );
}

#[test]
fn an_unparsable_cursor_restarts_and_names_the_problem() {
    let page = resolve(Some("garbage"), 3);

    assert_eq!(page.offset, 0);

    assert!(
        page.note.as_deref().is_some_and(|note| note.contains("rejected")),
        "the rejection is explained: {:?}",
        page.note,
    );
}

#[test]
fn no_cursor_is_the_first_page_with_no_note() {
    assert_eq!(resolve(None, 4), Page::default());
    assert_eq!(resolve(Some("  "), 4), Page::default(), "blank is the same as absent");
}

#[test]
fn paging_through_a_set_covers_every_item_exactly_once() {
    let items: Vec<usize> = (0..300).collect();
    let generation = 11;
    let limit = 40;

    let mut seen: Vec<usize> = Vec::new();
    let mut cursor: Option<String> = None;
    let mut pages: u32 = 0;

    loop {
        pages += 1;

        assert!(pages < 32, "paging terminates well inside a sane bound");

        let page = resolve(cursor.as_deref(), generation);
        let window = slice(&items, page.offset, limit);

        seen.extend_from_slice(window);

        match next_line(page.offset, window.len(), items.len(), generation) {
            Some(line) => {
                let value = line
                    .split("cursor=")
                    .nth(1)
                    .and_then(|rest| rest.split(' ').next())
                    .expect("the next line carries a cursor value");

                cursor = Some(value.to_string());
            }
            None => break,
        }
    }

    assert_eq!(seen, items, "every item appears exactly once, in order");
}

#[test]
fn the_last_page_offers_no_next_cursor() {
    assert!(next_line(280, 20, 300, 5).is_none(), "the set is exhausted");
    assert!(next_line(0, 300, 300, 5).is_none(), "one page covering everything is the last");
    assert!(next_line(0, 40, 300, 5).is_some(), "a partial page offers the rest");
}

#[test]
fn an_offset_past_the_end_yields_an_empty_page_rather_than_panicking() {
    let items: Vec<usize> = (0..10).collect();

    assert!(slice(&items, 50, 10).is_empty(), "a runaway offset is empty, not a panic");
    assert_eq!(slice(&items, 8, 10).len(), 2, "a partial tail returns what is left");
}

#[test]
fn every_cursor_error_has_its_own_message() {
    let messages = [
        CursorError::WrongShape.message(),
        CursorError::Malformed.message(),
        CursorError::OffsetTooLarge.message(),
    ];

    for (position, message) in messages.iter().enumerate() {
        assert!(!message.is_empty());
        assert!(!messages[..position].contains(message));
    }
}

#[test]
fn the_next_line_names_the_offset_after_the_page() {
    let line = next_line(40, 20, 300, 5).unwrap();

    assert!(line.contains(&format!("cursor={}", encode(60, 5))), "{line}");
    assert_eq!(next_text_line(280, 20, 300, 5), "");
    assert_eq!(next_text_line(40, 20, 300, 5).trim_end(), line.trim_end());
}

#[test]
fn an_offset_at_the_bound_is_accepted() {
    let text = encode(CURSOR_OFFSET_MAX, u64::MAX);

    assert_eq!(decode(&text), Ok(Cursor { generation: u64::MAX, offset: CURSOR_OFFSET_MAX }));
    assert_eq!(decode("+3.1"), Ok(Cursor { generation: 1, offset: 3 }), "a sign is a number too");
    assert_eq!(decode("3.18446744073709551616"), Err(CursorError::Malformed));
}

#[test]
fn a_note_stands_on_a_line_of_its_own() {
    assert_eq!(note_line(&Page::default()), "");

    let stale = resolve(Some("1.1"), 2);
    let line = note_line(&stale);

    assert!(line.contains(stale.note.as_deref().unwrap()));
    assert!(line.ends_with('\n'));
}
