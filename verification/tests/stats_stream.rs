use wombat::stats::ParseError;
use wombat::stats_stream::poll_step;
use wombat::stats_stream::PollError;

#[test]
fn failed_read_terminates_the_sequence() {
    assert_eq!(poll_step(None), Err(PollError::ReadFailed));
}

#[test]
fn failed_parse_terminates_the_sequence() {
    assert_eq!(
        poll_step(Some("".to_string())),
        Err(PollError::Parse(ParseError::NoData))
    );
    assert_eq!(
        poll_step(Some("cpu 1 2\n".to_string())),
        Err(PollError::Parse(ParseError::MissingValue))
    );
}

#[test]
fn successful_read_yields_the_parsed_snapshot() {
    let stats = poll_step(Some("cpu 1 2 3 4 5 6 7\n".to_string())).unwrap();
    assert_eq!(stats.cpus.len(), 1);
    assert_eq!(stats.cpus[0].name, "cpu".to_string());
    assert_eq!(stats.cpus[0].idle, 4);
}
