use wombat::stats::Cpu;
use wombat::stats::ParseError;
use wombat::stats::Stats;

#[test]
fn test_cpu_convert() {
    assert_eq!(Cpu::convert(Some("4131912")), Ok(4131912u32));
    assert_eq!(
        Cpu::convert(None).unwrap_err().message(),
        "No value to convert".to_string()
    );
    assert_eq!(
        Cpu::convert(Some("Not a Number")).unwrap_err().message(),
        "Cannot convert 'Not a Number' to integer".to_string()
    );
}

#[test]
fn test_stats_parse_when_ok() {
    let sample = "
cpu  4131912 43485 887569 18935824 51604 0 102247 0 0 0
cpu0 960234 11659 231388 15668752 40519 0 35043 0 0 0
cpu1 916500 10916 214729 690046 3149 0 18904 0 0 0
cpu2 1480248 10422 249234 1296362 4548 0 45765 0 0 0
cpu3 774928 10486 192216 1280662 3386 0 2535 0 0 0
intr 7118640867 7 1171 0 0 0 0 0 0 1 43007 0 0 22939 0 0 0 585 2693749855 0 0 0 0 0 706 0 0 0 0 0 1865506 1344827 277 3363179 0 15 144 0 0 0 0 0 0 0 0 0 0 0 0 0 0 0 0 0 0 0 0 0 0 0 0 0 0 0 0 0 0 0 0 0 0 0 0 0 0 0 0 0 0 0 0 0 0 0 0 0 0 0 0 0 0 0 0 0 0 0 0 0 0 0 0 0 0 0 0 0 0 0 0 0 0 0 0 0 0 0 0 0 0 0 0 0 0 0 0 0 0 0 0 0 0 0 0 0 0 0 0 0 0 0 0 0 0 0 0 0 0 0 0 0 0 0 0 0 0 0 0 0 0 0 0 0 0 0 0 0 0 0 0 0 0 0 0 0 0 0 0 0 0 0 0 0 0 0 0 0 0 0 0 0 0 0 0 0 0 0 0 0 0 0 0 0 0 0 0 0 0 0 0 0 0 0 0 0 0 0 0 0 0 0 0 0 0 0 0 0 0 0 0 0 0 0 0 0 0 0 0 0 0 0 0 0 0 0 0 0 0 0 0 0 0 0 0 0 0 0 0 0 0 0 0 0 0 0 0 0 0 0 0 0 0 0 0 0 0 0 0 0 0 0 0 0 0 0 0 0 0 0 0 0 0 0 0 0 0 0 0 0 0 0 0 0 0 0 0 0 0 0 0 0 0 0 0 0 0 0 0 0 0 0 0 0 0 0 0 0 0 0 0 0 0 0 0 0 0 0 0 0 0 0 0 0 0 0 0 0 0 0 0 0 0 0 0 0 0 0 0 0 0 0 0 0 0 0 0 0
ctxt 678980518
btime 1572616833
processes 197673
procs_running 2
procs_blocked 0
softirq 89033313 5011 30024317 5135935 134668 1506402 84 7178334 27350448 0 17698114
    ";
    assert_eq!(
        Stats::parse(sample),
        Ok(Stats {
            cpus: vec![
                Cpu {
                    name: "cpu".to_string(),
                    user: 4131912,
                    nice: 43485,
                    system: 887569,
                    idle: 18935824,
                    iowait: 51604,
                    irq: 0,
                    softirq: 102247
                },
                Cpu {
                    name: "cpu0".to_string(),
                    user: 960234,
                    nice: 11659,
                    system: 231388,
                    idle: 15668752,
                    iowait: 40519,
                    irq: 0,
                    softirq: 35043
                },
                Cpu {
                    name: "cpu1".to_string(),
                    user: 916500,
                    nice: 10916,
                    system: 214729,
                    idle: 690046,
                    iowait: 3149,
                    irq: 0,
                    softirq: 18904
                },
                Cpu {
                    name: "cpu2".to_string(),
                    user: 1480248,
                    nice: 10422,
                    system: 249234,
                    idle: 1296362,
                    iowait: 4548,
                    irq: 0,
                    softirq: 45765
                },
                Cpu {
                    name: "cpu3".to_string(),
                    user: 774928,
                    nice: 10486,
                    system: 192216,
                    idle: 1280662,
                    iowait: 3386,
                    irq: 0,
                    softirq: 2535
                }
            ]
        })
    );
}

#[test]
fn test_stats_parse_when_missing_value() {
    let sample = "
cpu  4131912 43485 887569 18935824 51604 0
cpu0 960234 11659 231388 15668752 40519 0 35043 0 0 0
cpu1 916500 10916 214729 690046 3149 0 18904 0 0 0
cpu2 1480248 10422 249234 1296362 4548 0 45765 0 0 0
cpu3 774928 10486 192216 1280662 3386 0 2535 0 0 0
    ";
    assert_eq!(
        Stats::parse(sample).unwrap_err().message(),
        "No value to convert".to_string()
    );
}

#[test]
fn test_stats_parse_when_wrong_value() {
    let sample = "
cpu  4131912 oïoï 887569 18935824 51604 0 102247 0 0 0
cpu0 960234 11659 231388 15668752 40519 0 35043 0 0 0
cpu1 916500 10916 214729 690046 3149 0 18904 0 0 0
cpu2 1480248 10422 249234 1296362 4548 0 45765 0 0 0
cpu3 774928 10486 192216 1280662 3386 0 2535 0 0 0
    ";
    assert_eq!(
        Stats::parse(sample).unwrap_err().message(),
        "Cannot convert 'oïoï' to integer".to_string()
    );
}

#[test]
fn test_stats_parse_when_no_value() {
    let sample = "
    ";
    assert_eq!(
        Stats::parse(sample).unwrap_err().message(),
        "No CPU stats available".to_string()
    );
}

#[test]
fn two_rows_parse_positionally() {
    let r = Stats::parse("cpu 1 2 3 4 5 6 7\ncpu0 10 20 30 40 50 60 70\n").unwrap();
    assert_eq!(
        r,
        Stats {
            cpus: vec![
                Cpu {
                    name: "cpu".to_string(),
                    user: 1,
                    nice: 2,
                    system: 3,
                    idle: 4,
                    iowait: 5,
                    irq: 6,
                    softirq: 7
                },
                Cpu {
                    name: "cpu0".to_string(),
                    user: 10,
                    nice: 20,
                    system: 30,
                    idle: 40,
                    iowait: 50,
                    irq: 60,
                    softirq: 70
                },
            ]
        }
    );
}

#[test]
fn short_line_is_missing_value() {
    assert_eq!(Stats::parse("cpu 1 2 3\n"), Err(ParseError::MissingValue));
}

#[test]
fn bad_token_is_named_verbatim() {
    assert_eq!(
        Stats::parse("cpu 1 x 3 4 5 6 7\n"),
        Err(ParseError::InvalidInteger("x".to_string()))
    );
}

#[test]
fn whitespace_only_is_no_data() {
    assert_eq!(Stats::parse("   \n \t \n"), Err(ParseError::NoData));
}

#[test]
fn empty_text_is_no_data() {
    assert_eq!(Stats::parse(""), Err(ParseError::NoData));
}

#[test]
fn earlier_invalid_token_beats_later_missing_value() {
    assert_eq!(
        Stats::parse("cpu zz 2 3 4 5 6 7\ncpu0 1 2\n"),
        Err(ParseError::InvalidInteger("zz".to_string()))
    );
}

#[test]
fn invalid_before_missing_within_one_line() {
    assert_eq!(
        Stats::parse("cpu 1 oops\n"),
        Err(ParseError::InvalidInteger("oops".to_string()))
    );
}

#[test]
fn non_cpu_lines_are_skipped_not_errors() {
    let r = Stats::parse("intr 1 2\nbtime x\ncpu 1 2 3 4 5 6 7\n").unwrap();
    assert_eq!(r.cpus.len(), 1);
    assert_eq!(r.cpus[0].name, "cpu".to_string());
}

#[test]
fn convert_accepts_plus_sign_and_bounds() {
    assert_eq!(Cpu::convert(Some("+5")), Ok(5u32));
    assert_eq!(Cpu::convert(Some("4294967295")), Ok(u32::MAX));
    assert_eq!(
        Cpu::convert(Some("4294967296")),
        Err(ParseError::InvalidInteger("4294967296".to_string()))
    );
    assert_eq!(
        Cpu::convert(Some("")),
        Err(ParseError::InvalidInteger("".to_string()))
    );
    assert_eq!(
        Cpu::convert(Some("+")),
        Err(ParseError::InvalidInteger("+".to_string()))
    );
    assert_eq!(
        Cpu::convert(Some("-1")),
        Err(ParseError::InvalidInteger("-1".to_string()))
    );
}

#[test]
fn crlf_line_endings_are_tolerated() {
    let r = Stats::parse("cpu 1 2 3 4 5 6 7 8 9\r\ncpu0 9 8 7 6 5 4 3\r\n").unwrap();
    assert_eq!(r.cpus.len(), 2);
    assert_eq!(r.cpus[0].softirq, 7);
    assert_eq!(r.cpus[1].user, 9);
}
