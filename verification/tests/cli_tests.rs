use sql_split::cli::{get_dir_name, get_output_size, SizeError};

#[test]
fn sizes_in_each_unit() {
    assert_eq!(get_output_size(Some("1kb")), Ok(1024));
    assert_eq!(get_output_size(Some("10mb")), Ok(10 * 1024 * 1024));
    assert_eq!(get_output_size(Some("2gb")), Ok(2 * 1024 * 1024 * 1024));
    assert_eq!(get_output_size(Some("0kb")), Ok(0));
    assert_eq!(get_output_size(Some("007kb")), Ok(7 * 1024));
    assert_eq!(get_output_size(Some("+3kb")), Ok(3 * 1024));
    assert_eq!(get_output_size(Some("512kb")), Ok(524288));
}

#[test]
fn a_missing_size_is_an_error() {
    assert_eq!(get_output_size(None), Err(SizeError::Missing));
}

#[test]
fn a_size_without_a_digit_and_a_unit_is_an_error() {
    assert_eq!(get_output_size(Some("")), Err(SizeError::InvalidLength));
    assert_eq!(get_output_size(Some("1")), Err(SizeError::InvalidLength));
    assert_eq!(get_output_size(Some("kb")), Err(SizeError::InvalidLength));
    assert_eq!(get_output_size(Some("12")), Err(SizeError::InvalidLength));
}

#[test]
fn an_unknown_unit_is_an_error() {
    assert_eq!(get_output_size(Some("10tb")), Err(SizeError::InvalidFormat));
    assert_eq!(get_output_size(Some("10KB")), Err(SizeError::InvalidFormat));
    assert_eq!(get_output_size(Some("10bk")), Err(SizeError::InvalidFormat));
    assert_eq!(get_output_size(Some("100")), Err(SizeError::InvalidFormat));
    assert_eq!(get_output_size(Some("1 k")), Err(SizeError::InvalidFormat));
}

#[test]
fn what_is_no_number_is_an_error() {
    assert_eq!(get_output_size(Some("akb")), Err(SizeError::InvalidNumber));
    assert_eq!(get_output_size(Some("-1kb")), Err(SizeError::InvalidNumber));
    assert_eq!(get_output_size(Some("1.5mb")), Err(SizeError::InvalidNumber));
    assert_eq!(get_output_size(Some(" 1kb")), Err(SizeError::InvalidNumber));
    assert_eq!(get_output_size(Some("+kb")), Err(SizeError::InvalidNumber));
    assert_eq!(get_output_size(Some("++1kb")), Err(SizeError::InvalidNumber));
    assert_eq!(get_output_size(Some("1+kb")), Err(SizeError::InvalidNumber));
}

#[test]
fn a_size_that_does_not_fit_is_an_error() {
    assert_eq!(
        get_output_size(Some("99999999999999999999999999kb")),
        Err(SizeError::InvalidNumber)
    );
    let most = usize::MAX / 1024;
    assert_eq!(get_output_size(Some(&format!("{}kb", most))), Ok(most * 1024));
    assert_eq!(get_output_size(Some(&format!("{}kb", most + 1))), Err(SizeError::InvalidNumber));
    assert_eq!(get_output_size(Some(&format!("{}gb", usize::MAX))), Err(SizeError::InvalidNumber));
}

#[test]
fn size_errors_have_their_texts() {
    assert_eq!(SizeError::Missing.text(), "output-size is required");
    assert_eq!(SizeError::InvalidLength.text(), "output-size has invalid length.");
    assert_eq!(
        SizeError::InvalidFormat.text(),
        "output-size has invalid format. choose from kb, mb or gb."
    );
    assert_eq!(SizeError::InvalidNumber.text(), "unable to parse number output-size number");
}

#[test]
fn the_output_is_named_after_the_stem_of_the_file() {
    assert_eq!(get_dir_name("dump.sql"), "dump");
    assert_eq!(get_dir_name("my dump file.sql"), "my_dump_file");
    assert_eq!(get_dir_name("archive.tar.gz"), "archive");
    assert_eq!(get_dir_name("plain"), "plain");
    assert_eq!(get_dir_name(".hidden"), "");
    assert_eq!(get_dir_name(""), "");
    assert_eq!(get_dir_name("a b.c d"), "a_b");
    assert_eq!(get_dir_name("d\u{e9}j\u{e0} vu.sql"), "d\u{e9}j\u{e0}_vu");
}
