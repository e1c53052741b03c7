use payload_pty::scroll::{ScrollBuffer, CAPACITY};

#[test]
fn new_buffer_is_empty() {
    let b = ScrollBuffer::new();
    assert_eq!(b.len(), 0);
    assert_eq!(b.render_text(), "");
}

#[test]
fn lines_are_split_and_joined() {
    let mut b = ScrollBuffer::new();
    b.append("one\ntwo\nthree");
    assert_eq!(b.len(), 3);
    assert_eq!(b.render_text(), "one\ntwo\nthree");
}

#[test]
fn chunk_continues_last_line() {
    let mut b = ScrollBuffer::new();
    b.append("ab");
    b.append("cd\n");
    b.append("ef");
    assert_eq!(b.len(), 2);
    assert_eq!(b.render_text(), "abcd\nef");
}

#[test]
fn trailing_newline_ends_a_line() {
    let mut b = ScrollBuffer::new();
    b.append("x\n");
    assert_eq!(b.len(), 1);
    assert_eq!(b.render_text(), "x");
    b.append("y");
    assert_eq!(b.len(), 2);
    assert_eq!(b.render_text(), "x\ny");
}

#[test]
fn empty_lines_between_newlines_count() {
    let mut b = ScrollBuffer::new();
    b.append("a\n\nb\n");
    assert_eq!(b.len(), 3);
    assert_eq!(b.render_text(), "a\n\nb");
}

#[test]
fn keeps_only_the_most_recent_lines() {
    let mut b = ScrollBuffer::new();
    let mut all = String::new();
    for i in 0..250 {
        let chunk = format!("line {}\n", i);
        all.push_str(&chunk);
        b.append(&chunk);
        assert!(b.len() <= CAPACITY);
    }
    assert_eq!(b.len(), CAPACITY);
    let lines: Vec<&str> = all.lines().collect();
    let expected = lines[lines.len() - CAPACITY..].join("\n");
    assert_eq!(b.render_text(), expected);
    assert!(b.render_text().starts_with("line 150\n"));
    assert!(b.render_text().ends_with("line 249"));
}

#[test]
fn one_large_chunk_is_bounded() {
    let mut b = ScrollBuffer::new();
    let text: String = (0..1000).map(|i| format!("{}\n", i)).collect();
    b.append(&text);
    assert_eq!(b.len(), CAPACITY);
    assert!(b.render_text().starts_with("900\n"));
    assert!(b.render_text().ends_with("\n999"));
}

#[test]
fn exactly_capacity_lines_are_kept() {
    let mut b = ScrollBuffer::new();
    let text: Vec<String> = (0..CAPACITY).map(|i| i.to_string()).collect();
    b.append(&text.join("\n"));
    assert_eq!(b.len(), CAPACITY);
    assert!(b.render_text().starts_with("0\n1\n"));
}

#[test]
fn open_line_survives_trimming() {
    let mut b = ScrollBuffer::new();
    let text: String = (0..150).map(|i| format!("{}\n", i)).collect();
    b.append(&text);
    b.append("par");
    b.append("tial");
    assert_eq!(b.len(), CAPACITY);
    assert!(b.render_text().starts_with("51\n"));
    assert!(b.render_text().ends_with("\n149\npartial"));
}
