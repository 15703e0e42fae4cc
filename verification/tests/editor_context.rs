use codex_ide::editor_context::{
    bounded_text, editor_path, local_abs_path, take_bounded, utf16_range, BufferFile, Point,
};
use codex_ide::path::PathStyle;

#[test]
fn bounded_text_preserves_unicode_and_stops_reading_chunks() {
    let mut chunks_read = 0;
    let chunks = ["é", "😀世界", "never copied"]
        .into_iter()
        .inspect(|_| chunks_read += 1);
    assert_eq!(bounded_text(chunks, 7), ("é😀".into(), true));
    assert_eq!(chunks_read, 2);
    assert_eq!(
        bounded_text(["é", "😀"].into_iter(), 6),
        ("é😀".into(), false)
    );
    assert_eq!(bounded_text(["😀"].into_iter(), 0), (String::new(), true));
}

#[test]
fn a_cut_falls_between_characters() {
    let whole = "aé世😀z";
    for limit in 0..14 {
        let (text, cut) = bounded_text(["aé", "", "世😀z"].into_iter(), limit);
        assert!(whole.starts_with(&text));
        assert!(text.len() <= limit);
        assert_eq!(cut, limit < whole.len());
        if let Some(next) = whole[text.len()..].chars().next() {
            assert!(text.len() + next.len_utf8() > limit);
        } else {
            assert!(!cut);
        }
    }
    assert_eq!(bounded_text([].into_iter(), 0), (String::new(), false));
}

#[test]
fn what_is_not_read_is_left() {
    let mut chunks = ["é", "😀世界", "never", "read"].into_iter();
    assert_eq!(take_bounded(&mut chunks, 7), ("é😀".into(), true));
    assert_eq!(chunks.collect::<Vec<_>>(), ["never", "read"]);
    let mut chunks = ["é", "😀"].into_iter();
    assert_eq!(take_bounded(&mut chunks, 6), ("é😀".into(), false));
    assert_eq!(chunks.next(), None);
}

#[test]
fn columns_are_counted_in_utf16() {
    let line = "é😀世界";
    let start = Point { row: 0, line, column: 6 };
    let end = Point { row: 0, line, column: 12 };
    let (start, end) = utf16_range(&start, &end);
    assert_eq!((start.row, start.column, end.column), (0, 3, 5));
    let next = Point { row: 7, line: "next", column: 4 };
    let (start, end) = utf16_range(&next, &next);
    assert_eq!((start.row, start.column), (7, 4));
    assert_eq!(start, end);
}

#[test]
fn only_local_files_have_a_path() {
    let style = PathStyle::Unix;
    assert_eq!(local_abs_path(style, &BufferFile::Untitled), None);
    assert_eq!(local_abs_path(style, &BufferFile::Remote), None);
    assert_eq!(
        local_abs_path(style, &BufferFile::Local(b"/a/b.rs".to_vec())).as_deref(),
        Some("/a/b.rs")
    );
    assert_eq!(
        local_abs_path(style, &BufferFile::Local(vec![b'/', 0xff])).as_deref(),
        Some("/\u{fffd}")
    );
    assert_eq!(
        local_abs_path(
            PathStyle::Windows,
            &BufferFile::Local(vec![b'C', b':', 0xed, 0xb0, 0x80])
        )
        .as_deref(),
        Some("C:\u{fffd}")
    );
    assert_eq!(editor_path(style, &None), None);
    assert_eq!(editor_path(style, &Some(BufferFile::Untitled)), None);
    assert_eq!(
        editor_path(style, &Some(BufferFile::Local(b"/a".to_vec()))).as_deref(),
        Some("/a")
    );
}
