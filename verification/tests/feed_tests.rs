use sql_split::feed::Feed;
use sql_split::source::MemorySource;
use sql_split::splitter::{FileState, Splitter, SplitterSettings, SplitterState};

const DUMP: &[u8] = b"-- a dump\n/* of one\n   table */\nCREATE TABLE `t` (`a` int(11), `b` varchar(20));\nINSERT INTO `t` VALUES (1,'x;y'),(2,'it\\'s'),(3,'(, )');\n\nINSERT INTO `t` (`a`) VALUES (4),(5);\nSET x = 1;\n-- the end";

fn whole(content: &[u8], write: usize) -> (Vec<(FileState, Vec<u8>)>, Option<&'static str>) {
    let mut splitter =
        Splitter::new(SplitterSettings { write, file: MemorySource::new(content.to_vec()) });
    let mut chunks = vec![];
    loop {
        match splitter.process() {
            SplitterState::SyntaxErr(e) => return (chunks, Some(e.text)),
            SplitterState::Chunk(state, bytes) => chunks.push((state, bytes)),
            SplitterState::Done => return (chunks, None),
        }
    }
}

fn in_blocks(
    content: &[u8],
    write: usize,
    size: usize,
) -> (Vec<(FileState, Vec<u8>)>, Option<&'static str>) {
    let mut feed = Feed::new(write);
    let mut chunks = vec![];
    for block in content.chunks(size) {
        chunks.extend(feed.feed(block.to_vec()));
    }
    let (last, error) = feed.finish();
    chunks.extend(last);
    (chunks, error.map(|e| e.text))
}

#[test]
fn how_the_dump_is_cut_makes_no_difference() {
    for write in [1usize, 10, 40, 100, 1000] {
        let expected = whole(DUMP, write);
        assert!(expected.1.is_none());
        for size in 1..DUMP.len() + 2 {
            assert_eq!(in_blocks(DUMP, write, size), expected);
        }
    }
}

#[test]
fn a_unit_waits_until_it_ends() {
    let mut feed = Feed::new(1000);
    assert_eq!(feed.feed(b"CREATE TA".to_vec()), vec![]);
    assert_eq!(
        feed.feed(b"BLE t (a int);\n".to_vec()),
        vec![
            (FileState::New, b"CREATE TABLE t (a int);".to_vec()),
            (FileState::Continue, b"\n".to_vec()),
        ]
    );
    assert_eq!(feed.feed(b"INSERT INTO t VALUES (1".to_vec()), vec![]);
    assert_eq!(
        feed.feed(b"),(2),(3333333333333333333333".to_vec()),
        vec![
            (FileState::Continue, b"INSERT INTO t VALUES (1),".to_vec()),
            (FileState::Continue, b"(2),".to_vec()),
        ]
    );
    assert_eq!(
        feed.feed(b"3);-- the last words of".to_vec()),
        vec![(FileState::Continue, b"(33333333333333333333333);".to_vec())]
    );
    let (chunks, error) = feed.finish();
    assert_eq!(chunks, vec![(FileState::Continue, b"-- the last words of".to_vec())]);
    assert!(error.is_none());
}

#[test]
fn an_unfinished_unit_is_read_again_when_twice_as_much_is_pending() {
    let mut feed = Feed::new(1000);
    assert_eq!(feed.feed(b"DROP TABLE".to_vec()), vec![]);
    assert_eq!(feed.feed(b" t;".to_vec()), vec![]);
    assert_eq!(feed.feed(b"-- a\n".to_vec()), vec![]);
    assert_eq!(
        feed.feed(b"-- b\n".to_vec()),
        vec![
            (FileState::New, b"DROP TABLE t;".to_vec()),
            (FileState::Continue, b"-- a\n".to_vec()),
            (FileState::Continue, b"-- b\n".to_vec()),
        ]
    );
    assert_eq!(feed.feed(b";".to_vec()), vec![(FileState::Continue, b";".to_vec())]);
}

#[test]
fn the_end_of_the_dump_does_not_wait() {
    let mut feed = Feed::new(1000);
    assert_eq!(feed.feed(b"DROP TABLE".to_vec()), vec![]);
    assert_eq!(feed.feed(b" t;".to_vec()), vec![]);
    let (chunks, error) = feed.finish();
    assert_eq!(chunks, vec![(FileState::New, b"DROP TABLE t;".to_vec())]);
    assert!(error.is_none());
}

#[test]
fn a_comment_line_is_ready_at_its_line_feed() {
    let mut feed = Feed::new(1000);
    assert_eq!(feed.feed(b"-- a".to_vec()), vec![]);
    assert_eq!(feed.feed(b"-\n/* b*".to_vec()), vec![(FileState::New, b"-- a-\n".to_vec())]);
    assert_eq!(feed.feed(b"*/ ".to_vec()), vec![]);
    assert_eq!(
        feed.feed(b"  ".to_vec()),
        vec![
            (FileState::Continue, b"/* b**/".to_vec()),
            (FileState::Continue, b" ".to_vec()),
            (FileState::Continue, b" ".to_vec()),
            (FileState::Continue, b" ".to_vec()),
        ]
    );
}

#[test]
fn an_error_is_told_at_the_end_of_the_dump() {
    let mut feed = Feed::new(1000);
    assert_eq!(feed.feed(b"-- ok\nSELECT 'abc".to_vec()), vec![(FileState::New, b"-- ok\n".to_vec())]);
    assert_eq!(feed.feed(b"def".to_vec()), vec![]);
    let (chunks, error) = feed.finish();
    assert_eq!(chunks, vec![]);
    assert_eq!(error.unwrap().text, "Unclosed string.");
}

#[test]
fn chunks_before_an_error_are_handed_out() {
    let mut feed = Feed::new(1000);
    assert_eq!(feed.feed(b"-- last".to_vec()), vec![]);
    assert_eq!(feed.feed(b" word\n;".to_vec()), vec![
        (FileState::New, b"-- last word\n".to_vec()),
        (FileState::Continue, b";".to_vec()),
    ]);
    assert_eq!(feed.feed(b" ) -- x".to_vec()), vec![(FileState::Continue, b" ".to_vec())]);
    let (chunks, error) = feed.finish();
    assert_eq!(chunks, vec![]);
    assert_eq!(error.unwrap().text, "Invalid sql file.");
    for size in 1..20 {
        assert_eq!(in_blocks(b"-- a\n;;DROP t; (1) ", 7, size), whole(b"-- a\n;;DROP t; (1) ", 7));
    }
    assert_eq!(whole(b"-- a\n;;DROP t; (1) ", 7).1, Some("Unable to parse values."));
    assert_eq!(whole(b"-- a\n;;DROP t; (1) ", 7).0.len(), 5);
}

#[test]
fn a_long_unit_is_read_few_times() {
    let mut dump = b"INSERT INTO t VALUES ('".to_vec();
    dump.extend(vec![b'x'; 100_000]);
    dump.extend(b"'),(2);".to_vec());
    let expected = whole(&dump, 1 << 20);
    assert_eq!(expected.0.len(), 2);
    assert_eq!(in_blocks(&dump, 1 << 20, 1), expected);
    assert_eq!(in_blocks(&dump, 1 << 20, 64), expected);
}

#[test]
fn an_empty_dump_gives_nothing() {
    let mut feed = Feed::new(10);
    let (chunks, error) = feed.finish();
    assert_eq!(chunks, vec![]);
    assert!(error.is_none());
    let mut feed = Feed::new(10);
    assert_eq!(feed.feed(vec![]), vec![]);
    let (chunks, error) = feed.finish();
    assert_eq!(chunks, vec![]);
    assert!(error.is_none());
}

#[test]
fn finish_may_be_asked_again() {
    let mut feed = Feed::new(10);
    assert_eq!(feed.feed(b";".to_vec()), vec![(FileState::New, b";".to_vec())]);
    assert_eq!(feed.finish().0, vec![]);
    assert_eq!(feed.finish().0, vec![]);
}
