use onebrc::chunker::split_chunks;
use onebrc::grammar::check_input;
use onebrc::hash_table::MyHashMap;
use onebrc::phf_pipeline::{process_chunk_ilp, process_chunk_phf};
use onebrc::pipeline::{aggregate, process_chunk};
use onebrc::report::format_output;
use onebrc::scanner::MARGIN;
use onebrc::temperature::TempTable;

fn padded(text: &str) -> Vec<u8> {
    let mut buf = text.as_bytes().to_vec();
    buf.extend(std::iter::repeat(0u8).take(MARGIN));
    buf
}

fn report(text: &str, chunks: usize) -> String {
    let buf = padded(text);
    assert!(check_input(&buf, 0, text.len()));
    let lut = TempTable::new();
    let table = aggregate(&buf, text.len(), chunks, &lut).expect("fits one table");
    String::from_utf8(format_output(&table)).unwrap()
}

fn generated(lines: usize) -> String {
    let names = [
        "Hamburg", "Bulawayo", "Palembang", "St. John's", "Cracow", "Bridgetown", "Istanbul",
        "Roseau", "Conakry", "Xi'an", "A", "Ab", "Abc", "Llanfairpwllgwyngyllgogerychwyrndrobwll",
    ];
    let mut text = String::new();
    let mut x: u64 = 12345;
    for _ in 0..lines {
        x = x.wrapping_mul(6364136223846793005).wrapping_add(1442695040888963407);
        let name = names[((x >> 33) % names.len() as u64) as usize];
        let t = ((x >> 17) % 1999) as i32 - 999;
        let sign = if t < 0 { "-" } else { "" };
        text.push_str(&format!("{};{}{}.{}\n", name, sign, t.abs() / 10, t.abs() % 10));
    }
    text
}

#[test]
fn scenario_two_stations() {
    let text = "Hamburg;12.0\nBulawayo;8.9\nPalembang;38.8\nHamburg;34.2\nBulawayo;22.4\n";
    assert_eq!(
        report(text, 1),
        "{Bulawayo=8.9/15.7/22.4, Hamburg=12.0/23.1/34.2, Palembang=38.8/38.8/38.8}"
    );
}

#[test]
fn scenario_negatives() {
    let text = "Yakutsk;-45.4\nYakutsk;-40.0\nYakutsk;5.0\n";
    assert_eq!(report(text, 1), "{Yakutsk=-45.4/-26.8/5.0}");
}

#[test]
fn scenario_bytewise_order() {
    let text = "aaa;1.0\nAAA;1.0\n";
    assert_eq!(report(text, 1), "{AAA=1.0/1.0/1.0, aaa=1.0/1.0/1.0}");
}

#[test]
fn scenario_mean_rounding() {
    let text = "X;1.0\nX;1.0\nX;2.0\n";
    assert_eq!(report(text, 1), "{X=1.0/1.3/2.0}");
}

#[test]
fn scenario_parallel_equivalence() {
    let text = generated(100_000);
    let serial = report(&text, 1);
    assert_eq!(serial, report(&text, 16));
    assert_eq!(serial, report(&text, 7));
}

#[test]
fn scenario_last_line_at_margin() {
    let text = "Hamburg;12.0\nZ;-0.5\n";
    let buf = padded(text);
    assert_eq!(buf.len(), text.len() + MARGIN);
    let lut = TempTable::new();
    let table = process_chunk(&buf, 0, text.len(), &lut).unwrap();
    assert_eq!(
        String::from_utf8(format_output(&table)).unwrap(),
        "{Hamburg=12.0/12.0/12.0, Z=-0.5/-0.5/-0.5}"
    );
}

#[test]
fn empty_input_renders_braces() {
    assert_eq!(report("", 3), "{}");
}

#[test]
fn long_names_take_the_byte_search_path() {
    let long = "Llanfairpwllgwyngyllgogerychwyrndrobwllllantysiliogogogoch";
    let text = format!("{};-1.5\nB;2.0\n{};3.5\n", long, long);
    assert_eq!(report(&text, 1), format!("{{B=2.0/2.0/2.0, {}=-1.5/1.0/3.5}}", long));
}

#[test]
fn chunking_does_not_change_the_result() {
    let text = generated(5_000);
    let one = report(&text, 1);
    for chunks in [2, 3, 5, 64, 1000] {
        assert_eq!(one, report(&text, chunks));
    }
}

#[test]
fn line_order_does_not_change_the_result() {
    let text = generated(3_000);
    let mut lines: Vec<&str> = text.lines().collect();
    let forward = report(&text, 1);
    lines.reverse();
    let reversed: String = lines.iter().map(|l| format!("{}\n", l)).collect();
    assert_eq!(forward, report(&reversed, 1));
    lines.sort();
    let sorted: String = lines.iter().map(|l| format!("{}\n", l)).collect();
    assert_eq!(forward, report(&sorted, 4));
}

#[test]
fn chunks_tile_the_input() {
    let text = generated(1_000);
    let buf = padded(&text);
    let chunks = split_chunks(&buf, text.len(), 9);
    assert_eq!(chunks.len(), 9);
    assert_eq!(chunks[0].0, 0);
    assert_eq!(chunks[8].1, text.len());
    for w in chunks.windows(2) {
        assert_eq!(w[0].1, w[1].0);
    }
    for &(s, e) in chunks.iter() {
        assert!(s <= e);
        if e > s {
            assert_eq!(buf[e - 1], b'\n');
        }
    }
    // every chunk but the last ends on the last terminator of its window
    let ideal = text.len() / 9;
    let (s0, e0) = chunks[0];
    assert!(e0 <= s0 + ideal);
    assert!(!buf[e0..s0 + ideal].contains(&b'\n'));
}

#[test]
fn small_windows_give_empty_chunks() {
    let text = "Hamburg;12.0\n";
    let buf = padded(text);
    let chunks = split_chunks(&buf, text.len(), 4);
    assert_eq!(chunks, vec![(0, 0), (0, 0), (0, 0), (0, text.len())]);
    assert_eq!(report(text, 4), "{Hamburg=12.0/12.0/12.0}");
}

#[test]
fn grammar_violations_are_detected() {
    for bad in ["A12.0\n", "A;12.0", ";1.0\n", "A;1.00\n", "A;123.4\n", "A;1,0\n", "A;--1.0\n", "A;.5\n"] {
        let buf = padded(bad);
        assert!(!check_input(&buf, 0, bad.len()), "{:?}", bad);
    }
    for good in ["A;1.0\n", "A;-1.0\n", "A;99.9\n", "Ab c;-99.9\nX;0.0\n", ""] {
        let buf = padded(good);
        assert!(check_input(&buf, 0, good.len()), "{:?}", good);
    }
}

#[test]
fn too_many_stations_overflow_the_table() {
    let mut text = String::new();
    for i in 0..16385 {
        text.push_str(&format!("s{};1.0\n", i));
    }
    let buf = padded(&text);
    let lut = TempTable::new();
    assert!(process_chunk(&buf, 0, text.len(), &lut).is_none());
    assert!(aggregate(&buf, text.len(), 4, &lut).is_none());
    let fits: String = text.lines().take(16384).map(|l| format!("{}\n", l)).collect();
    let buf = padded(&fits);
    assert!(aggregate(&buf, fits.len(), 4, &lut).is_some());
}

#[test]
fn interleaved_scan_matches_serial_scan() {
    let text = generated(4_000);
    let buf = padded(&text);
    let lut = TempTable::new();
    let chunks = split_chunks(&buf, text.len(), 4);
    let serial = process_chunk_phf(&buf, 0, text.len(), &lut);
    let ilp = process_chunk_ilp(&buf, 0, chunks[0].1, chunks[1].1, chunks[2].1, text.len(), &lut);
    for i in 0..onebrc::phf::PHF_SIZE {
        let a = serial.entry(i);
        let b = ilp.entry(i);
        assert_eq!((a.min, a.max, a.sum, a.count), (b.min, b.max, b.sum, b.count));
    }
}

#[test]
fn table_counts_add_up_to_lines() {
    let text = generated(2_500);
    let buf = padded(&text);
    let lut = TempTable::new();
    let table: MyHashMap = process_chunk(&buf, 0, text.len(), &lut).unwrap();
    let items = table.iter();
    let total: u64 = items.iter().map(|(_, e)| e.count).sum();
    assert_eq!(total, text.bytes().filter(|&b| b == b'\n').count() as u64);
    let mut names: Vec<Vec<u8>> = items.iter().map(|(n, _)| n.as_bytes().to_vec()).collect();
    names.sort();
    let mut expected: Vec<Vec<u8>> = text
        .lines()
        .map(|l| l.split(';').next().unwrap().as_bytes().to_vec())
        .collect();
    expected.sort();
    expected.dedup();
    assert_eq!(names, expected);
}

#[test]
fn report_reparses_to_the_same_values() {
    let text = generated(2_000);
    let out = report(&text, 3);
    let inner = &out[1..out.len() - 1];
    let buf = padded(&text);
    let lut = TempTable::new();
    let table = aggregate(&buf, text.len(), 1, &lut).unwrap();
    let items = table.iter();
    for entry in inner.split(", ") {
        let (name, values) = entry.rsplit_once('=').unwrap();
        let parts: Vec<&str> = values.split('/').collect();
        let parsed: Vec<i32> = parts
            .iter()
            .map(|p| onebrc::temperature::parse_measurement(p.as_bytes()))
            .collect();
        let (_, e) = items.iter().find(|(n, _)| n.as_bytes() == name.as_bytes()).unwrap();
        assert_eq!(parsed, vec![e.min, e.mean(), e.max]);
    }
}
