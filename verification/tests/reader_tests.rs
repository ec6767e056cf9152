use sql_split::reader::{is_eof, Reader};
use sql_split::source::{ByteSource, MemorySource, SliceSource};

fn reader_over(content: &[u8]) -> Reader<MemorySource> {
    Reader::new(MemorySource::new(content.to_vec()))
}

#[test]
fn lib_empty_file() {
    let mut reader = reader_over(b"");
    assert_eq!(reader.get(), None);
}

#[test]
fn lib_get() {
    let mut reader = reader_over(b"1234567890");

    assert_eq!(reader.get(), Some(b'1'));
    assert_eq!(reader.get(), Some(b'2'));
    assert_eq!(reader.get(), Some(b'3'));
    assert_eq!(reader.get(), Some(b'4'));
    assert_eq!(reader.get(), Some(b'5'));
    assert_eq!(reader.get(), Some(b'6'));
    assert_eq!(reader.get(), Some(b'7'));
    assert_eq!(reader.get(), Some(b'8'));
    assert_eq!(reader.get(), Some(b'9'));
    assert_eq!(reader.get(), Some(b'0'));
    assert_eq!(reader.get(), None);
    assert_eq!(reader.get(), None);
}

#[test]
fn lib_iter_all() {
    let content: Vec<u8> = (0..100_000u32).map(|i| (i % 251) as u8).collect();
    let mut reader = Reader::new(MemorySource::new(content.clone()));
    let mut len = 0;
    loop {
        match reader.get() {
            Some(byte) => {
                assert_eq!(byte, content[len]);
                len += 1;
            }
            None => break,
        }
    }
    assert_eq!(len, content.len());
}

#[test]
fn lib_peek() {
    let mut reader = reader_over(b"1234567890");
    assert_eq!(reader.peek(), Some(b'1'));
    let _skip_it = reader.get();

    assert_eq!(reader.peek(), Some(b'2'));
}

#[test]
fn lib_peek_next() {
    let mut reader = reader_over(b"1234567890");
    assert_eq!(reader.peek_next(), Some(b'2'));
    assert_eq!(reader.get(), Some(b'1'));
    assert_eq!(reader.get(), Some(b'2'));
    assert_eq!(reader.peek(), Some(b'3'));
    assert_eq!(reader.peek_next(), Some(b'4'));
}

#[test]
fn zero_byte_is_not_the_end() {
    let mut reader = reader_over(&[0, 7]);
    assert_eq!(reader.peek(), Some(0));
    assert_eq!(reader.peek_next(), Some(7));
    assert_eq!(reader.get(), Some(0));
    assert!(!is_eof(Some(0)));
    assert_eq!(reader.get(), Some(7));
    assert!(is_eof(reader.get()));
}

#[test]
fn peek_next_at_the_last_byte() {
    let mut reader = reader_over(b"ab");
    assert_eq!(reader.get(), Some(b'a'));
    assert_eq!(reader.peek(), Some(b'b'));
    assert_eq!(reader.peek_next(), None);
    assert_eq!(reader.get(), Some(b'b'));
    assert_eq!(reader.peek(), None);
    assert_eq!(reader.peek_next(), None);
}

#[test]
fn increment_cursor_steps_over_one_byte() {
    let mut reader = reader_over(b"xyz");
    reader.increment_cursor();
    assert_eq!(reader.get(), Some(b'y'));
    reader.increment_cursor();
    reader.increment_cursor();
    assert_eq!(reader.get(), None);
}

#[test]
fn lookahead_across_blocks() {
    let size = sql_split::reader::BLOCK_SIZE;
    let mut content = vec![b'a'; size - 1];
    content.push(b'b');
    content.push(b'c');
    let mut reader = Reader::new(MemorySource::new(content));
    for _ in 0..size - 1 {
        assert_eq!(reader.get(), Some(b'a'));
    }
    assert_eq!(reader.peek(), Some(b'b'));
    assert_eq!(reader.peek_next(), Some(b'c'));
    assert_eq!(reader.get(), Some(b'b'));
    assert_eq!(reader.get(), Some(b'c'));
    assert_eq!(reader.get(), None);
}

#[test]
fn memory_source_reads_in_blocks() {
    let mut source = MemorySource::new(vec![1, 2, 3]);
    assert_eq!(source.read_block(2), vec![1, 2]);
    assert_eq!(source.read_block(2), vec![3]);
    assert_eq!(source.read_block(2), Vec::<u8>::new());
    assert_eq!(source.read_block(0), Vec::<u8>::new());
}

#[test]
fn slice_source_reads_in_blocks() {
    let data = [1u8, 2, 3, 4, 5];
    let mut source = SliceSource::new(&data);
    assert_eq!(source.read_block(2), vec![1, 2]);
    assert_eq!(source.read_block(0), Vec::<u8>::new());
    assert_eq!(source.read_block(2), vec![3, 4]);
    assert_eq!(source.read_block(2), vec![5]);
    assert_eq!(source.read_block(2), Vec::<u8>::new());
}

#[test]
fn reader_over_a_slice() {
    let data = b"ab".to_vec();
    let mut reader = Reader::new(SliceSource::new(&data));
    assert_eq!(reader.peek_next(), Some(b'b'));
    assert_eq!(reader.get(), Some(b'a'));
    assert_eq!(reader.get(), Some(b'b'));
    assert_eq!(reader.get(), None);
}
