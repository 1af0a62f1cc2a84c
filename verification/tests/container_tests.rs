use wal_rust::trace::container::{detect_format, reject_unsupported, WaveFormat, WaveRejection};
use wal_rust::trace::trace::{resolve_index, resolve_name, resolve_name_strict};

#[test]
fn formats_by_name_and_head() {
    assert_eq!(detect_format("a.vcd", b""), Some(WaveFormat::Vcd));
    assert_eq!(detect_format("A.VCD", b""), Some(WaveFormat::Vcd));
    assert_eq!(detect_format("a.fst", b""), Some(WaveFormat::Fst));
    assert_eq!(detect_format("dump.FsDb", b""), Some(WaveFormat::Fsdb));
    assert_eq!(detect_format("a.vcd.gz", b"$date"), None);
    assert_eq!(detect_format("a.VCD.BZ2", b"$date"), None);
    assert_eq!(detect_format("wave", b"$timescale 1ns"), Some(WaveFormat::Vcd));
    assert_eq!(detect_format("wave", b"$scope"), Some(WaveFormat::Vcd));
    assert_eq!(detect_format("wave", b"$da"), None);
    assert_eq!(detect_format("wave", &[3, 0, 0, 0, 0]), Some(WaveFormat::Fst));
    assert_eq!(detect_format("wave", b"xxFSDBxx"), Some(WaveFormat::Fsdb));
    assert_eq!(detect_format("wave", b"hello"), None);
    assert_eq!(detect_format("wäve.vcd", b""), Some(WaveFormat::Vcd));
}

#[test]
fn refused_files() {
    assert_eq!(reject_unsupported("a.vcd", &[0x1f, 0x8b, 8], false), Err(WaveRejection::Gzip));
    assert_eq!(reject_unsupported("a.vcd", b"BZh9", false), Err(WaveRejection::Bzip2));
    assert_eq!(
        reject_unsupported("a.fsdb", b"", false),
        Err(WaveRejection::FsdbWithoutReader)
    );
    assert_eq!(reject_unsupported("a.fsdb", b"", true), Ok(()));
    assert_eq!(
        reject_unsupported("wave", b"\0\0\0\0FSDB", false),
        Err(WaveRejection::FsdbWithoutReader)
    );
    assert_eq!(reject_unsupported("a.EVCD", b"", false), Err(WaveRejection::ExtendedVcd));
    assert_eq!(
        reject_unsupported("a.vcd", b"$date\n$dumpports\n", false),
        Err(WaveRejection::ExtendedVcd)
    );
    assert_eq!(
        reject_unsupported("a.vcd", b"$var port 1 <0 p $end", true),
        Err(WaveRejection::ExtendedVcd)
    );
    assert_eq!(reject_unsupported("a.vcd", b"$date today $end", false), Ok(()));
}

#[test]
fn signal_name_resolution() {
    let sigs: Vec<String> = ["top.clk", "top.cpu.clk", "top.cpu.data_bus", "tb.rst_n"]
        .iter()
        .map(|s| s.to_string())
        .collect();
    assert_eq!(resolve_index(&sigs, "top.cpu.clk"), Some(1));
    assert_eq!(resolve_name(&sigs, "clk"), Some("top.clk".to_string()));
    assert_eq!(resolve_name(&sigs, "data_bus"), Some("top.cpu.data_bus".to_string()));
    assert_eq!(resolve_name(&sigs, "rst"), Some("tb.rst_n".to_string()));
    assert_eq!(resolve_name(&sigs, "cpu.data"), Some("top.cpu.data_bus".to_string()));
    assert_eq!(resolve_name(&sigs, "nothing"), None);
    assert_eq!(resolve_name_strict(&sigs, "top.clk"), Ok("top.clk".to_string()));
    assert_eq!(resolve_name_strict(&sigs, "data"), Ok("top.cpu.data_bus".to_string()));
    assert_eq!(
        resolve_name_strict(&sigs, "clk"),
        Err(vec!["top.clk".to_string(), "top.cpu.clk".to_string()])
    );
    assert_eq!(resolve_name_strict(&sigs, "zzz"), Err(Vec::<String>::new()));
}
