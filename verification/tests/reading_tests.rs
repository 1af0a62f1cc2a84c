use wal_rust::cli::{needs_input_hint, Args, Command, ExecMode, RunArgs};
use wal_rust::vcd::parser::{parse_signal_number_fast, MmapVcdParser, VcdParser};
use wal_rust::vcd::reader::{Compression, FileInfo, LineError, LineReader, MmapReader, SeekError};
use wal_rust::vcd::types::{ErrorKind, VcdEvent, VcdValue};

#[test]
fn line_reader_strips_line_endings_and_counts_reads() {
    let mut r = LineReader::new(b"a\r\nbc\n\nlast".to_vec());
    assert_eq!(r.read_line(), Ok(Some("a".to_string())));
    assert_eq!(r.read_line(), Ok(Some("bc".to_string())));
    assert_eq!(r.read_line(), Ok(Some("".to_string())));
    assert_eq!(r.read_line(), Ok(Some("last".to_string())));
    assert_eq!(r.read_line(), Ok(None));
    assert_eq!(r.line_number(), 5);
    let mut bad = LineReader::new(vec![0xff, b'\n', b'o', b'k']);
    assert_eq!(bad.read_line(), Err(LineError::InvalidUtf8));
    let mut lines = bad.lines();
    assert_eq!(lines.next(), Some(Ok((1, "ok".to_string()))));
    assert_eq!(lines.next(), None);
}

#[test]
fn whole_file_reader_lines() {
    let mut r = MmapReader::from_data(b"one\r\ntwo\nthree\r".to_vec());
    assert_eq!(r.read_line_bytes(), Some(&b"one"[..]));
    assert_eq!(r.read_line_bytes(), Some(&b"two"[..]));
    // A last line without a line break keeps its '\r'.
    assert_eq!(r.read_line_bytes(), Some(&b"three\r"[..]));
    assert_eq!(r.read_line_bytes(), None);
    assert_eq!(r.line_number(), 3);
    assert_eq!(r.seek_to(100), Err(SeekError::BeyondEnd));
    assert_eq!(r.seek_to(5), Ok(()));
    assert_eq!(r.current_offset(), 5);
    assert_eq!(r.read_line(), Some("two".to_string()));
    let mut lossy = MmapReader::from_data(vec![b'a', 0xff, b'b']);
    assert_eq!(lossy.read_line(), Some("a\u{FFFD}b".to_string()));
    assert_eq!(lossy.data_len(), 3);
    assert_eq!(lossy.data(), &[b'a', 0xff, b'b']);
}

#[test]
fn file_info_takes_compression_from_the_name() {
    let f = FileInfo::new("dir/wave.vcd.bz2", 12);
    assert_eq!(f.path, "dir/wave.vcd.bz2");
    assert_eq!(f.size, 12);
    assert_eq!(f.compression, Compression::Bzip2);
    assert_eq!(Compression::from_extension("GZ"), Some(Compression::Gzip));
    assert_eq!(Compression::from_extension("zip"), None);
}

#[test]
fn signal_numbers_come_from_the_first_digits() {
    assert_eq!(parse_signal_number_fast(b"s12x3"), 12);
    assert_eq!(parse_signal_number_fast(b"!"), 0);
    assert_eq!(parse_signal_number_fast(b"4294967296"), 0);
}

#[test]
fn parser_reports_header_and_dump_events() {
    let input = b"$date\n  today\n$end\n$timescale 10 ps $end\n$scope module top $end\n$var real 64 r9 temp $end\n$upscope $end\n$enddefinitions $end\n#7\nr2.5 r9\nbzz s1\n$dumpoff\nq\n";
    let mut p = VcdParser::new(input.to_vec());
    let mut got = Vec::new();
    while let Some(e) = p.next() {
        got.push(e);
    }
    assert!(matches!(got[0], Ok(VcdEvent::Timescale(-11))));
    assert!(matches!(got[1], Ok(VcdEvent::ScopeStart { ref name, ref kind }) if name == "top" && kind == "module"));
    assert!(matches!(got[2], Ok(VcdEvent::VarDecl { ref id, ref name, width: 64, ref var_type }) if id == "r9" && name == "temp" && var_type == "real"));
    assert!(matches!(got[3], Ok(VcdEvent::ScopeEnd)));
    assert!(matches!(got[4], Ok(VcdEvent::DumpVars)));
    assert!(matches!(got[5], Ok(VcdEvent::Timestamp(7))));
    assert!(matches!(got[6], Ok(VcdEvent::ValueChange { id: 9, value: VcdValue::Real(ref t) }) if t == "2.5"));
    assert!(matches!(got[7], Ok(VcdEvent::ValueChange { id: 1, value: VcdValue::Vector(ref v) }) if v == b"zz"));
    assert!(matches!(got[8], Ok(VcdEvent::DumpOff)));
    assert_eq!(got.len(), 9);
    assert_eq!(p.line_number(), 14);
}

#[test]
fn parser_errors() {
    let input = b"$var wire 1 !\n$enddefinitions $end\nb\nb2 !\n";
    let mut p = VcdParser::new(input.to_vec());
    match p.next() {
        Some(Err(e)) => {
            assert_eq!(e.line, 1);
            assert!(matches!(e.kind, ErrorKind::UnexpectedChar { found: ' ', .. }));
            assert!(e.is_recoverable());
        }
        other => panic!("expected an error, got {:?}", other),
    }
    assert!(matches!(p.next(), Some(Ok(VcdEvent::DumpVars))));
    match p.next() {
        Some(Err(e)) => assert!(matches!(e.kind, ErrorKind::UnexpectedChar { expected: "vector value and signal id", .. })),
        other => panic!("expected an error, got {:?}", other),
    }
    match p.next() {
        Some(Err(e)) => {
            assert!(matches!(e.kind, ErrorKind::InvalidTimestamp { ref value } if value == "2"));
            assert_eq!(e.help, Some("Invalid vector value format".to_string()));
        }
        other => panic!("expected an error, got {:?}", other),
    }
    assert!(p.next().is_none());
    let mut bad = VcdParser::new(vec![b'#', 0xff, b'\n']);
    match bad.next() {
        Some(Err(e)) => {
            assert!(matches!(e.kind, ErrorKind::IoError(ref m) if m == "stream did not contain valid UTF-8"));
            assert!(!e.is_recoverable());
        }
        other => panic!("expected an error, got {:?}", other),
    }
}

#[test]
fn whole_file_parser_reads_the_same_events() {
    let input = b"$scope module m $end\n$var wire 2 #5 bus $end\n$enddefinitions $end\n#3\nb10 #5\n1#5\n";
    let mut p = MmapVcdParser::new(MmapReader::from_data(input.to_vec()));
    let mut got = Vec::new();
    while let Some(e) = p.next() {
        got.push(e);
    }
    assert_eq!(got.len(), 6);
    assert!(matches!(got[1], Ok(VcdEvent::VarDecl { ref name, width: 2, .. }) if name == "bus"));
    assert!(matches!(got[4], Ok(VcdEvent::ValueChange { id: 5, value: VcdValue::Vector(ref v) }) if v == b"10"));
    assert!(matches!(got[5], Ok(VcdEvent::ValueChange { id: 5, value: VcdValue::Bit(b'1') })));
    assert_eq!(p.line_number(), 6);
}

fn args(input: Option<&str>, stdin: bool, command: Option<Command>) -> Args {
    Args {
        input: input.map(|s| s.to_string()),
        load: vec!["w.vcd".to_string()],
        halt_on_error: true,
        stdin,
        command,
    }
}

#[test]
fn arguments_resolve_to_a_mode() {
    match args(Some("  (count x) "), false, None).resolve() {
        Some(ExecMode::EvalExpr { code, load }) => {
            assert_eq!(code, "(count x)");
            assert_eq!(load, vec!["w.vcd".to_string()]);
        }
        _ => panic!("expected an expression"),
    }
    match args(Some("script.wal"), false, None).resolve() {
        Some(ExecMode::RunScript { path, code, halt_on_error, .. }) => {
            assert_eq!(path, "script.wal");
            assert!(code.is_none());
            assert!(halt_on_error);
        }
        _ => panic!("expected a script"),
    }
    assert!(matches!(args(None, false, None).resolve(), Some(ExecMode::Repl)));
    assert!(matches!(args(Some("x"), true, None).resolve(), Some(ExecMode::StdinSession { .. })));
    let run_none = Command::Run(RunArgs { file: None, load: vec![], code: None });
    assert!(args(None, false, Some(run_none)).resolve().is_none());
    let run_code = Command::Run(RunArgs { file: Some("f.wal".to_string()), load: vec![], code: Some("(+ 1 2)".to_string()) });
    assert!(matches!(args(None, false, Some(run_code)).resolve(), Some(ExecMode::EvalExpr { ref code, .. }) if code == "(+ 1 2)"));
    assert!(needs_input_hint("wave.vcd"));
    assert!(!needs_input_hint("(x)"));
    assert!(!needs_input_hint("; note"));
    assert!(!needs_input_hint("a\nb"));
}
