use wal_rust::vcd::parser::{parse_timescale_exp, VcdParser};
use wal_rust::vcd::reader::{detect_compression, Compression};
use wal_rust::vcd::types::{VcdEvent, VcdValue};

fn all_events(input: &[u8]) -> Vec<Result<VcdEvent, wal_rust::vcd::types::VcdError>> {
    let mut parser = VcdParser::new(input.to_vec());
    let mut events = Vec::new();
    while let Some(e) = parser.next() {
        events.push(e);
    }
    events
}

#[test]
fn test_parse_var() {
    let input = b"$var wire 1 ! clk $end\n";
    let events = all_events(&input[..]);
    assert!(!events.is_empty());
    assert!(matches!(events[0], Ok(VcdEvent::VarDecl { .. })));
}

#[test]
fn test_parse_timestamp() {
    let input = b"$timescale 1ns $end
$scope module test $end
$var wire 1 ! clk $end
$upscope $end
$enddefinitions $end
#1000
";
    let events = all_events(&input[..]);
    let mut seen = false;
    for (i, event) in events.into_iter().enumerate() {
        if i == 5 {
            match event.unwrap() {
                VcdEvent::Timestamp(t) => assert_eq!(t, 1000),
                other => panic!("Expected timestamp at position 5, got {:?}", other),
            }
            seen = true;
            break;
        }
    }
    assert!(seen);
}

#[test]
fn test_parse_scalar_change() {
    let input = b"$timescale 1ns $end
$scope module test $end
$var wire 1 ! clk $end
$upscope $end
$enddefinitions $end
$dumpvars
b0 !
0!
#10
1!
#20
$end
";
    let mut found_1_event = false;
    for event in all_events(&input[..]) {
        if let Ok(VcdEvent::ValueChange { id, value }) = event {
            if id == 0 && matches!(value, VcdValue::Bit(b'1')) {
                found_1_event = true;
                break;
            }
        }
    }
    assert!(found_1_event, "Should find value change '1!' for '!' signal");
}

#[test]
fn test_parse_vector_change() {
    let input = b"$timescale 1ns $end
$scope module test $end
$var wire 4 s1 data $end
$upscope $end
$enddefinitions $end
$dumpvars
b0000 s1
b1010 s1
#20
$end
";
    let mut found_1010_event = false;
    for event in all_events(&input[..]) {
        if let Ok(VcdEvent::ValueChange { id, value }) = event {
            if id == 1 && matches!(value, VcdValue::Vector(ref v) if v == &[b'1', b'0', b'1', b'0']) {
                found_1010_event = true;
                break;
            }
        }
    }
    assert!(found_1010_event, "Should find vector change 'b1010 s1' for 's1' signal");
}

#[test]
fn test_timescale_parsing() {
    assert_eq!(parse_timescale_exp("1 ns"), -9);
    assert_eq!(parse_timescale_exp("10 ns"), -8);
    assert_eq!(parse_timescale_exp("1 ps"), -12);
    assert_eq!(parse_timescale_exp("1 us"), -6);
}

#[test]
fn test_detect_compression() {
    assert_eq!(detect_compression("test.vcd"), Compression::Plain);
    assert_eq!(detect_compression("test.vcd.gz"), Compression::Gzip);
    assert_eq!(detect_compression("test.vcd.bz2"), Compression::Bzip2);
    assert_eq!(detect_compression("test.gz"), Compression::Gzip);
}

#[test]
fn test_parse_scalar() {
    assert_eq!(VcdValue::parse_scalar('0'), Some(VcdValue::Bit(b'0')));
    assert_eq!(VcdValue::parse_scalar('1'), Some(VcdValue::Bit(b'1')));
    assert_eq!(VcdValue::parse_scalar('x'), Some(VcdValue::Bit(b'x')));
    assert_eq!(VcdValue::parse_scalar('z'), Some(VcdValue::Bit(b'z')));
    assert_eq!(VcdValue::parse_scalar('X'), Some(VcdValue::Bit(b'X')));
    assert_eq!(VcdValue::parse_scalar('Z'), Some(VcdValue::Bit(b'Z')));
    assert_eq!(VcdValue::parse_scalar('a'), None);
}

#[test]
fn test_parse_vector() {
    assert_eq!(VcdValue::parse_vector("1010"), Some(VcdValue::Vector(vec![b'1', b'0', b'1', b'0'])));
    assert_eq!(VcdValue::parse_vector("xxxx"), Some(VcdValue::Vector(vec![b'x', b'x', b'x', b'x'])));
    assert_eq!(VcdValue::parse_vector(""), None);
    assert_eq!(VcdValue::parse_vector("abc"), None);
}

#[test]
fn test_parse_real() {
    let v = VcdValue::parse_real("3.14159");
    assert_eq!(v, Some(VcdValue::Real("3.14159".to_string())));
    if let Some(VcdValue::Real(t)) = v {
        assert_eq!(t.parse::<f64>().unwrap(), 3.14159);
    }
    assert_eq!(VcdValue::parse_real("invalid"), None);
}

#[test]
fn test_vcd_value_width() {
    assert_eq!(VcdValue::Bit(b'0').width(), 1);
    assert_eq!(VcdValue::Vector(vec![b'1'; 8]).width(), 8);
    assert_eq!(VcdValue::Real("0.0".to_string()).width(), 64);
}
