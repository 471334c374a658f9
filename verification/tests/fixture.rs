use xirang::fixture::{build, spec_for_nodes, FixtureKind, FixtureSpec, Prng};
use xirang::floats::{float_bits_for, float_text_for};
use xirang::scan::{collect, search, value_brief, Query, Scanner};
use xirang::text::{contains_text, parse_i64, parse_usize, trim};
use xirang::validator::validate;

fn small() -> FixtureSpec {
    FixtureSpec {
        kind: FixtureKind::Single,
        files: 1,
        entries_per_file: 3,
        inherit_ratio: 50,
        seed: 7,
        name: "t".into(),
    }
}

#[test]
fn a_fixture_is_sound_and_repeatable() {
    let spec = FixtureSpec {
        kind: FixtureKind::Multi,
        files: 2,
        entries_per_file: 3,
        inherit_ratio: 50,
        seed: 7,
        name: "t".into(),
    };
    let a = build(&spec);
    let b = build(&spec);
    assert_eq!(a.files.len(), 2);
    assert_eq!(a.entry_ids, b.entry_ids);
    assert_eq!(a.entry_ids.len(), 6);
    let total: usize = a.files.iter().map(|(_, s)| s.len()).sum();
    assert_eq!(total, a.nodes);
    assert!(validate(a.files[0].1.nodes()).iter().all(|e| e.code.starts_with('R')));
    assert!(spec_for_nodes(10_000, FixtureKind::Single, "x", 1).entries_per_file > 0);
    assert_ne!(Prng(1).next(), Prng(2).next());
}

#[test]
fn bytes_arrive_in_pieces() {
    let info = build(&small());
    let bytes = info.files[0].1.encode().unwrap();
    let mut scanner = Scanner::new();
    let mut n: usize = 0;
    for piece in bytes.chunks(7) {
        n += scanner.feed(piece).unwrap().len();
    }
    assert_eq!(n, info.files[0].1.len());
}

#[test]
fn records_are_searched() {
    let info = build(&small());
    let records = info.files[0].1.nodes().clone();
    let some = collect(records.clone(), &Query::Kind("reference".into()));
    assert!(some.iter().all(|n| value_brief(&n.value, "").len() > 0));
    let hits = search(records, &Query::NameOrText("词".into()), &vec![]);
    assert!(!hits.is_empty());
}

#[test]
fn texts_are_read() {
    assert_eq!(parse_i64("-12"), Some(-12));
    assert_eq!(parse_i64("9223372036854775808"), None);
    assert_eq!(parse_usize("7"), Some(7));
    assert_eq!(trim("  灯\n"), "灯");
    assert!(contains_text("照明器具", "明器"));
    let table = vec![(1.5f64.to_bits(), "1.5".to_string())];
    assert_eq!(float_text_for(1.5f64.to_bits(), &table), "1.5");
    assert_eq!(float_bits_for("1.5", &vec![("1.5".to_string(), 3)]), Some(3));
}
