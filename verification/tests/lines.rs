use umber::{count_lines_bytes, prepare_bytes, slice_bytes_by_line_range, squeeze_blank_lines_bytes, LineRange};

#[test]
fn counts_lines() {
    assert_eq!(count_lines_bytes(b""), 0);
    assert_eq!(count_lines_bytes(b"a"), 1);
    assert_eq!(count_lines_bytes(b"a\n"), 1);
    assert_eq!(count_lines_bytes(b"a\nb"), 2);
    assert_eq!(count_lines_bytes(b"\n\n"), 2);
}

#[test]
fn slices_selected_lines() {
    let text = b"1\n2\n3\n4\n";
    assert_eq!(slice_bytes_by_line_range(text, LineRange { start: 2, end: 3 }), b"2\n3\n".to_vec());
    assert_eq!(slice_bytes_by_line_range(text, LineRange { start: 5, end: 9 }), Vec::<u8>::new());
    assert_eq!(slice_bytes_by_line_range(b"1\n2\n3", LineRange { start: 3, end: 10 }), b"3".to_vec());
    assert_eq!(slice_bytes_by_line_range(b"", LineRange { start: 1, end: 1 }), Vec::<u8>::new());
    assert_eq!(slice_bytes_by_line_range(text, LineRange { start: 3, end: 2 }), Vec::<u8>::new());
}

#[test]
fn slice_of_whole_range_is_identity() {
    let text = b"alpha\nbeta\r\ngamma";
    assert_eq!(slice_bytes_by_line_range(text, LineRange { start: 1, end: 3 }), text.to_vec());
    let sliced = slice_bytes_by_line_range(text, LineRange { start: 2, end: 2 });
    assert_eq!(count_lines_bytes(&sliced), 1);
}

#[test]
fn squeezes_blank_runs() {
    let text = b"a\n\n\n\nb\n";
    assert_eq!(squeeze_blank_lines_bytes(text, 1), b"a\n\nb\n".to_vec());
    assert_eq!(squeeze_blank_lines_bytes(text, 0), b"a\nb\n".to_vec());
    assert_eq!(squeeze_blank_lines_bytes(text, 2), b"a\n\n\nb\n".to_vec());
    assert_eq!(squeeze_blank_lines_bytes(text, 10), text.to_vec());
    assert_eq!(squeeze_blank_lines_bytes(b"", 1), Vec::<u8>::new());
}

#[test]
fn squeeze_treats_carriage_return_lines_as_blank() {
    assert_eq!(squeeze_blank_lines_bytes(b"a\r\n\r\n\r\nb", 1), b"a\r\n\r\nb".to_vec());
    assert_eq!(squeeze_blank_lines_bytes(b"a\n\n\r", 1), b"a\n\n".to_vec());
    assert_eq!(squeeze_blank_lines_bytes(b"a\n \n \n", 0), b"a\n \n \n".to_vec());
}

#[test]
fn squeeze_is_idempotent_on_example() {
    let once = squeeze_blank_lines_bytes(b"x\n\n\n\ny\n\n\n", 1);
    assert_eq!(squeeze_blank_lines_bytes(&once, 1), once);
}

#[test]
fn prepares_range_then_squeeze() {
    let text = b"1\n\n\n\n5\n6\n".to_vec();
    let out = prepare_bytes(text.clone(), Some(LineRange { start: 1, end: 5 }), true, 1);
    assert_eq!(out, b"1\n\n5\n".to_vec());
    assert_eq!(prepare_bytes(text.clone(), None, false, 1), text);
}

#[test]
fn squeezing_keeps_text_and_settles() {
    let input = b"a\n\n\n\r\nb\n\n\nc\n\n".to_vec();
    let once = squeeze_blank_lines_bytes(&input, 1);
    assert_eq!(once, b"a\n\nb\n\nc\n\n".to_vec());
    assert_eq!(squeeze_blank_lines_bytes(&once, 1), once);
    let twice_limit = squeeze_blank_lines_bytes(&input, 2);
    assert_eq!(twice_limit, b"a\n\n\nb\n\n\nc\n\n".to_vec());
    assert_eq!(squeeze_blank_lines_bytes(&twice_limit, 2), twice_limit);
}
