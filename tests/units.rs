use onebrc::hash_table::MyHashMap;
use onebrc::name::StationName;
use onebrc::order::name_less;
use onebrc::phf::{get_name_index, MyPHFMap, PHF_SIZE};
use onebrc::report::{format_results, sort_results};
use onebrc::scanner::{read_line, MARGIN};
use onebrc::stats::StationEntry;
use onebrc::temperature::{parse_measurement, parse_measurement_pos, TempTable};

fn entry(min: i32, max: i32, sum: i64, count: u64) -> StationEntry {
    StationEntry { sum, min, max, count }
}

fn fields(e: &StationEntry) -> (i32, i32, i64, u64) {
    (e.min, e.max, e.sum, e.count)
}

#[test]
fn parses_both_shapes() {
    assert_eq!(parse_measurement_pos(b"5.0"), 50);
    assert_eq!(parse_measurement_pos(b"0.7"), 7);
    assert_eq!(parse_measurement_pos(b"12.3"), 123);
    assert_eq!(parse_measurement_pos(b"99.9"), 999);
    assert_eq!(parse_measurement(b"38.8"), 388);
    assert_eq!(parse_measurement(b"-45.4"), -454);
    assert_eq!(parse_measurement(b"-0.1"), -1);
}

#[test]
fn minus_sign_negates() {
    for text in ["0.0", "1.5", "9.9", "10.0", "45.4", "99.9"] {
        let neg = format!("-{}", text);
        assert_eq!(parse_measurement(neg.as_bytes()), -parse_measurement(text.as_bytes()));
    }
}

#[test]
fn every_reading_parses_to_its_decimal_value() {
    let lut = TempTable::new();
    for v in -999i32..=999 {
        let text = format!("{}{}.{}\n", if v < 0 { "-" } else { "" }, v.abs() / 10, v.abs() % 10);
        let bytes = text.as_bytes();
        let end = bytes.len() - 1;
        assert_eq!(parse_measurement(&bytes[..end]), v);
        assert_eq!(lut.parse_at(bytes, 0, end), v);
    }
}

#[test]
fn lookup_table_reads_inside_a_line() {
    let lut = TempTable::new();
    let buf = b"Hamburg;-7.2\nX;12.5\n";
    assert_eq!(lut.parse_at(buf, 8, 12), -72);
    assert_eq!(lut.parse_at(buf, 15, 19), 125);
}

#[test]
fn scanner_finds_separator_and_terminator() {
    let mut buf = b"Hamburg;12.0\nBulawayo;-8.9\n".to_vec();
    let len = buf.len();
    buf.extend([0u8; MARGIN]);
    assert_eq!(read_line(&buf, 0, len), (7, 12));
    assert_eq!(read_line(&buf, 13, len), (21, 26));
    // without the margin the scan falls back to the byte search
    let tight = b"Hamburg;12.0\nBulawayo;-8.9\n";
    assert_eq!(read_line(tight, 13, tight.len()), (21, 26));
}

#[test]
fn adding_a_reading_updates_each_field() {
    let mut e = StationEntry::empty();
    e.add(50);
    assert_eq!(fields(&e), (50, 50, 50, 1));
    e.add(-20);
    assert_eq!(fields(&e), (-20, 50, 30, 2));
    e.add(10);
    assert_eq!(fields(&e), (-20, 50, 40, 3));
    assert_eq!(e.mean(), 13);
}

#[test]
fn merging_is_commutative_and_associative() {
    let a = entry(-10, 30, 40, 3);
    let b = entry(5, 99, 150, 4);
    let c = entry(-999, -999, -999, 1);
    let mut ab = a.clone();
    ab.merge(&b);
    let mut ba = b.clone();
    ba.merge(&a);
    assert_eq!(fields(&ab), fields(&ba));
    assert_eq!(fields(&ab), (-10, 99, 190, 7));
    let mut ab_c = ab.clone();
    ab_c.merge(&c);
    let mut bc = b.clone();
    bc.merge(&c);
    let mut a_bc = a.clone();
    a_bc.merge(&bc);
    assert_eq!(fields(&ab_c), fields(&a_bc));
    let mut e = StationEntry::empty();
    e.merge(&a);
    assert_eq!(fields(&e), fields(&a));
}

#[test]
fn mean_rounds_halves_away_from_zero() {
    assert_eq!(entry(89, 224, 313, 2).mean(), 157);
    assert_eq!(entry(-224, -89, -313, 2).mean(), -157);
    assert_eq!(entry(-454, 50, -804, 3).mean(), -268);
    assert_eq!(entry(10, 20, 40, 3).mean(), 13);
    assert_eq!(entry(10, 20, 50, 3).mean(), 17);
}

#[test]
fn name_index_samples_bytes_after_the_first() {
    let idx = |name: &[u8]| -> usize {
        let n = (name.len() - 1).min(8);
        let mut bytes = [0u8; 8];
        bytes[..n].copy_from_slice(&name[1..1 + n]);
        (u64::from_le_bytes(bytes) % PHF_SIZE as u64) as usize
    };
    for name in [&b"Hamburg"[..], b"A", b"Ab", b"Bulawayo", b"Llanfairpwllgwyngyll"] {
        assert_eq!(get_name_index(name), idx(name));
    }
    assert_eq!(get_name_index(b"A"), 0);
    assert_eq!(get_name_index(b"Ab"), 98);
}

#[test]
fn phf_table_inserts_and_merges() {
    let mut a = MyPHFMap::new();
    a.insert_measurement(b"Hamburg", 120);
    a.insert_measurement(b"Hamburg", 342);
    let mut b = MyPHFMap::new();
    b.insert_measurement(b"Hamburg", -5);
    b.insert_measurement(b"Bulawayo", 89);
    assert!(a.can_merge(&b));
    a.merge_maps(b);
    let h = a.entry(get_name_index(b"Hamburg"));
    assert_eq!(fields(h), (-5, 342, 457, 3));
    let names = vec![StationName::from_bytes(b"Bulawayo"), StationName::from_bytes(b"Hamburg"), StationName::from_bytes(b"Cracow")];
    let results = a.results(&names);
    assert_eq!(results.len(), 2);
    assert_eq!(results[0].0.as_bytes(), b"Bulawayo");
    assert_eq!(fields(&results[0].1), (89, 89, 89, 1));
    assert_eq!(results[1].0.as_bytes(), b"Hamburg");
}

#[test]
fn hash_table_inserts_and_merges() {
    let buf = b"Hamburg;Bulawayo;Ham;Hamburger";
    let mut t = MyHashMap::new();
    assert!(t.insert_measurement(buf, 0, 7, 120));
    assert!(t.insert_measurement(buf, 8, 16, 89));
    assert!(t.insert_measurement(buf, 17, 20, -3));
    assert!(t.insert_measurement(buf, 21, 30, 7));
    assert!(t.insert_measurement(buf, 0, 7, 342));
    let mut items = t.iter();
    assert_eq!(items.len(), 4);
    items = sort_results(&items);
    let names: Vec<&[u8]> = items.iter().map(|(n, _)| n.as_bytes()).collect();
    assert_eq!(names, vec![&b"Bulawayo"[..], b"Ham", b"Hamburg", b"Hamburger"]);
    assert_eq!(fields(&items[2].1), (120, 342, 462, 2));

    let mut other = MyHashMap::new();
    assert!(other.merge_entry(&StationName::from_bytes(b"Hamburg"), &entry(-50, -50, -50, 1)));
    assert!(other.merge_entry(&StationName::from_bytes(b"Oslo"), &entry(1, 2, 3, 2)));
    assert!(t.merge(&other));
    let merged = sort_results(&t.iter());
    assert_eq!(merged.len(), 5);
    assert_eq!(merged[2].0.as_bytes(), b"Hamburg");
    assert_eq!(fields(&merged[2].1), (-50, 342, 412, 3));
    assert_eq!(merged[4].0.as_bytes(), b"Oslo");
}

#[test]
fn merge_refuses_counts_past_the_bound() {
    let mut t = MyHashMap::new();
    let big = entry(0, 0, 0, onebrc::stats::MAX_COUNT);
    assert!(t.merge_entry(&StationName::from_bytes(b"X"), &big));
    assert!(!t.merge_entry(&StationName::from_bytes(b"X"), &entry(1, 1, 1, 1)));
}

#[test]
fn byte_order_puts_prefixes_and_capitals_first() {
    assert!(name_less(b"AAA", b"aaa"));
    assert!(name_less(b"Ham", b"Hamburg"));
    assert!(!name_less(b"Hamburg", b"Ham"));
    assert!(!name_less(b"Oslo", b"Oslo"));
    assert!(name_less(b"", b"a"));
}

#[test]
fn results_render_with_one_decimal() {
    let items = vec![
        (StationName::from_bytes(b"A"), entry(-999, 999, 0, 2)),
        (StationName::from_bytes(b"B"), entry(0, 5, 5, 2)),
    ];
    assert_eq!(
        String::from_utf8(format_results(&items)).unwrap(),
        "{A=-99.9/0.0/99.9, B=0.0/0.3/0.5}"
    );
    assert_eq!(String::from_utf8(format_results(&Vec::new())).unwrap(), "{}");
}

fn sample(name: &[u8]) -> u64 {
    let n = (name.len() - 1).min(8);
    let mut bytes = [0u8; 8];
    bytes[..n].copy_from_slice(&name[1..1 + n]);
    u64::from_le_bytes(bytes)
}

#[test]
fn seed_search_finds_the_first_injective_divisor() {
    let raw: Vec<&[u8]> = vec![b"Hamburg", b"Bulawayo", b"Palembang", b"Cracow", b"Oslo"];
    let names: Vec<StationName> = raw.iter().map(|n| StationName::from_bytes(n)).collect();
    assert_eq!(onebrc::phf::get_name_sample(b"Hamburg"), sample(b"Hamburg"));
    let expected = (1..10_000u64).find(|&d| {
        let mut seen: Vec<u64> = raw.iter().map(|n| sample(n) % d).collect();
        seen.sort();
        seen.dedup();
        seen.len() == raw.len()
    });
    let found = onebrc::phf::find_seed(&names, 1, 10_000);
    assert_eq!(found.map(|d| d as u64), expected);
    let d = found.unwrap();
    assert!(onebrc::phf::is_injective(&names, d));
    assert!(!onebrc::phf::is_injective(&names, 1));
    assert_eq!(onebrc::phf::find_seed(&names, 1, 2), None);
}

#[test]
fn phf_slots_agree_with_the_dictionary() {
    let text = "Hamburg;12.0\nBulawayo;8.9\nPalembang;38.8\nHamburg;34.2\nBulawayo;22.4\nOslo;-3.0\n";
    let mut buf = text.as_bytes().to_vec();
    buf.extend([0u8; MARGIN]);
    let lut = TempTable::new();
    let slots = onebrc::phf_pipeline::process_chunk_phf(&buf, 0, text.len(), &lut);
    let table = onebrc::pipeline::process_chunk(&buf, 0, text.len(), &lut).unwrap();
    for (name, e) in table.iter() {
        let s = slots.entry(get_name_index(name.as_bytes()));
        assert_eq!(fields(s), fields(&e));
    }
}
