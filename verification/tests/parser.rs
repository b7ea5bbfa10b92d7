use lock_scheduler::parser::parse_operations;
use lock_scheduler::parser::parse_record;
use lock_scheduler::Operation;

#[test]
fn parses_the_four_commands() {
    assert_eq!(parse_record("r1(x)"), Operation::Read(1, "x".to_string()));
    assert_eq!(parse_record("w2(db)"), Operation::Write(2, "db".to_string()));
    assert_eq!(parse_record("c3"), Operation::Commit(3));
    assert_eq!(parse_record("a4"), Operation::Abort(4));
}

#[test]
fn parses_bracketed_resources() {
    assert_eq!(parse_record("r1[x]"), Operation::Read(1, "x".to_string()));
    assert_eq!(parse_record("w10[tab_le]"), Operation::Write(10, "tab_le".to_string()));
}

#[test]
fn read_and_write_without_resource_get_the_empty_token() {
    assert_eq!(parse_record("r5"), Operation::Read(5, "".to_string()));
    assert_eq!(parse_record("w6"), Operation::Write(6, "".to_string()));
}

#[test]
fn commit_and_abort_ignore_a_resource() {
    assert_eq!(parse_record("c1(x)"), Operation::Commit(1));
    assert_eq!(parse_record("a2[y]"), Operation::Abort(2));
}

#[test]
fn malformed_records_are_unknown() {
    assert_eq!(parse_record(""), Operation::Unknown);
    assert_eq!(parse_record("x1"), Operation::Unknown);
    assert_eq!(parse_record("r"), Operation::Unknown);
    assert_eq!(parse_record("rw1(x)"), Operation::Unknown);
    assert_eq!(parse_record("1(x)"), Operation::Unknown);
    assert_eq!(parse_record("r1(x"), Operation::Unknown);
    assert_eq!(parse_record("r1x)"), Operation::Unknown);
    assert_eq!(parse_record("r1()"), Operation::Unknown);
    assert_eq!(parse_record("r1(x)junk"), Operation::Unknown);
    assert_eq!(parse_record("r1(x]"), Operation::Unknown);
}

#[test]
fn largest_transaction_number_fits_and_one_more_does_not() {
    assert_eq!(
        parse_record("r4294967295(x)"),
        Operation::Read(u32::MAX, "x".to_string())
    );
    assert_eq!(parse_record("r4294967296(x)"), Operation::Unknown);
    assert_eq!(parse_record("r99999999999999999999(x)"), Operation::Unknown);
}

#[test]
fn splits_a_log_on_dashes() {
    assert_eq!(
        parse_operations("r1(x)-w2(y)-c1-a2"),
        vec![
            Operation::Read(1, "x".to_string()),
            Operation::Write(2, "y".to_string()),
            Operation::Commit(1),
            Operation::Abort(2),
        ]
    );
}

#[test]
fn unknown_records_keep_their_place_in_the_log() {
    assert_eq!(
        parse_operations("r1(x)--zz-c1"),
        vec![
            Operation::Read(1, "x".to_string()),
            Operation::Unknown,
            Operation::Unknown,
            Operation::Commit(1),
        ]
    );
}

#[test]
fn empty_log_is_one_unknown_record() {
    assert_eq!(parse_operations(""), vec![Operation::Unknown]);
}
