use sim_server::text;
use sim_server::wind_cache::{
    field_url, fnv1a, newest_first, now_iso8601, resolve, source_url, start_with, steps_to_fetch,
    Entry, SourceMeta, Start, Wanted,
    WindCache,
};
use sim_server::wind_field::{levels_around, Level, Standing, WindField, WindHeader};
use sim_server::wind_file::{read_field, write_field, FieldFault};

fn meta() -> SourceMeta {
    SourceMeta {
        file: Some("data/abc.nc".into()),
        file_size: Some(12345),
        file_mtime: Some(999),
        time_index: 3,
        valid_time: Some("2024-01-15T06:00:00".into()),
        time_step_count: 24,
        spatial_stride: Some(2),
        synthetic: false,
        problem: None,
    }
}

fn grid(rows: Vec<Vec<f64>>) -> Vec<Vec<u64>> {
    rows.into_iter().map(|r| r.into_iter().map(f64::to_bits).collect()).collect()
}

fn small_field() -> WindField {
    WindField {
        header: WindHeader {
            nx: 3,
            ny: 2,
            lo1: 0.0f64.to_bits(),
            la1: 10.0f64.to_bits(),
            lo2: 20.0f64.to_bits(),
            la2: 0.0f64.to_bits(),
            dx: 10.0f64.to_bits(),
            dy: 10.0f64.to_bits(),
        },
        levels: vec![Level {
            pressure_hpa: 250.0f64.to_bits(),
            altitude_m: 10000.0f64.to_bits(),
            u_data: grid(vec![vec![1.5, -2.25, 3.0], vec![0.0, 4.75, -6.5]]),
            v_data: grid(vec![vec![-1.0, 2.0, 0.5], vec![7.25, -8.0, 9.125]]),
        }],
    }
}

/// What comes back is what went in.
#[test]
fn a_field_round_trips_exactly() {
    let field = small_field();
    let bytes = write_field(&field).unwrap();
    let back = read_field(&bytes).unwrap();
    assert_eq!(back.header, field.header);
    assert_eq!(back.levels.len(), 1);
    assert_eq!(back.levels[0].u_data, field.levels[0].u_data);
    assert_eq!(back.levels[0].v_data, field.levels[0].v_data);
    assert_eq!(back.levels[0].altitude_m, field.levels[0].altitude_m);
    assert_eq!(back.levels[0].pressure_hpa, field.levels[0].pressure_hpa);
}

#[test]
fn the_layout_is_as_stated() {
    let bytes = write_field(&small_field()).unwrap();
    assert_eq!(bytes.len(), 68 + 16 + 2 * 6 * 8);
    assert_eq!(&bytes[..8], b"ZMWIND01");
    assert_eq!(&bytes[8..12], &3u32.to_le_bytes());
    assert_eq!(&bytes[12..16], &2u32.to_le_bytes());
    assert_eq!(&bytes[24..32], &10.0f64.to_le_bytes());
    assert_eq!(&bytes[64..68], &1u32.to_le_bytes());
    assert_eq!(&bytes[68..76], &250.0f64.to_le_bytes());
    assert_eq!(&bytes[84..92], &1.5f64.to_le_bytes());
    assert_eq!(&bytes[132..140], &(-1.0f64).to_le_bytes());
}

#[test]
fn faulty_fields_and_files_are_told_apart() {
    let mut ragged = small_field();
    ragged.levels[0].v_data[1].pop();
    assert_eq!(write_field(&ragged).err(), Some(FieldFault::Shape));

    let bytes = write_field(&small_field()).unwrap();
    for cut in [0, 7, 8, 40, 67, 68, 83, 100, bytes.len() - 1] {
        assert_eq!(read_field(&bytes[..cut].to_vec()).err(), Some(FieldFault::Short), "{cut}");
    }
    let mut other = bytes.clone();
    other[7] = b'2';
    assert_eq!(read_field(&other).err(), Some(FieldFault::Mark));
    assert_eq!(read_field(&other[..8].to_vec()).err(), Some(FieldFault::Mark));

    let mut longer = bytes.clone();
    longer.push(0);
    assert!(read_field(&longer).is_ok());
}

#[test]
fn zero_wind_is_one_calm_cell() {
    let f = WindField::zero();
    assert_eq!((f.header.nx, f.header.ny), (1, 1));
    assert_eq!(f64::from_bits(f.header.lo1), -180.0);
    assert_eq!(f64::from_bits(f.header.la1), 90.0);
    assert_eq!(f64::from_bits(f.header.lo2), 180.0);
    assert_eq!(f64::from_bits(f.header.la2), -90.0);
    assert_eq!(f64::from_bits(f.header.dx), 360.0);
    assert_eq!(f64::from_bits(f.header.dy), 180.0);
    assert_eq!(f.levels.len(), 1);
    assert_eq!(f64::from_bits(f.levels[0].pressure_hpa), 500.0);
    assert_eq!(f64::from_bits(f.levels[0].altitude_m), 18000.0);
    assert_eq!(f.levels[0].u_data, vec![vec![0]]);
    assert_eq!(f.levels[0].v_data, vec![vec![0]]);
}

/// Replacing the file under a stored field must not keep serving the old one.
#[test]
fn changing_the_source_file_changes_the_key() {
    let base = meta();
    let mut touched = base.copy();
    touched.file_mtime = Some(1000);
    let mut regrown = base.copy();
    regrown.file_size = Some(999_999);

    assert_ne!(base.cache_key(), touched.cache_key(), "a rewritten file must miss");
    assert_ne!(base.cache_key(), regrown.cache_key(), "a resized file must miss");
    assert_eq!(base.cache_key(), meta().cache_key(), "and the same file must hit");
}

/// Time steps within one file are distinct fields.
#[test]
fn each_time_step_is_its_own_entry() {
    let a = meta();
    let mut b = meta();
    b.time_index = 4;
    b.valid_time = Some("2024-01-15T07:00:00".into());
    assert_ne!(a.cache_key(), b.cache_key());
    assert_ne!(a.label(), b.label());
}

/// Stride changes the grid, so it changes the field.
#[test]
fn everything_but_the_problem_participates_in_identity() {
    let base = meta();
    let later = SourceMeta { valid_time: Some("2024-01-15T07:00:00".into()), ..meta() };
    let longer = SourceMeta { time_step_count: 25, ..meta() };
    let shifted = SourceMeta {
        file: Some("data/abc.nc|12345".into()),
        valid_time: Some("19|2024-01-15T06:00:00".into()),
        ..meta()
    };
    let troubled = SourceMeta { problem: Some("none to speak of".into()), ..meta() };
    assert_ne!(base.cache_key(), later.cache_key());
    assert_ne!(base.cache_key(), longer.cache_key());
    assert_ne!(base.cache_key(), shifted.cache_key());
    assert_eq!(base.cache_key(), troubled.cache_key());
}

#[test]
fn stride_participates_in_identity() {
    let a = meta();
    let mut b = meta();
    b.spatial_stride = Some(8);
    assert_ne!(a.cache_key(), b.cache_key());
}

#[test]
fn keys_and_labels_are_exact() {
    // The published values of the hash.
    assert_eq!(fnv1a(b""), 0xcbf2_9ce4_8422_2325);
    assert_eq!(fnv1a(b"a"), 0xaf63_dc4c_8601_ec8c);
    assert_eq!(fnv1a(b"foobar"), 0x8594_4171_f739_67e8);
    let whole = b"data/abc.nc|12345|999|3|2|24|2024-01-15T06:00:00|19";
    assert_eq!(meta().cache_key(), format!("{:016x}", fnv1a(whole)));
    let mut bare = meta();
    bare.file = None;
    bare.file_size = None;
    bare.file_mtime = Some(-7);
    bare.spatial_stride = None;
    bare.valid_time = None;
    assert_eq!(bare.cache_key(), format!("{:016x}", fnv1a(b"|0|-7|3|0|24||0")));
    assert_eq!(bare.label(), "step3");
    assert_eq!(meta().label(), "2024-01-15T06:00:00");
    bare.synthetic = true;
    assert_eq!(bare.label(), "synthetic");
    assert_eq!(bare.cache_key(), format!("{:016x}", fnv1a(b"synthetic")));
    assert_eq!(now_iso8601(1700000000), "epoch:1700000000");
}

fn entry(key: &str, label: &str) -> Entry {
    Entry {
        key: key.into(),
        label: label.into(),
        source: meta(),
        cached_at: now_iso8601(0),
        bytes: 1,
        levels: 1,
        nx: 1,
        ny: 1,
    }
}

/// A cache with all these entries, each with its field.
fn cache(dir: &str, entries: Vec<Entry>) -> WindCache {
    let files = entries
        .iter()
        .flat_map(|e| [format!("{}.bin", e.key), format!("{}.json", e.key)])
        .collect();
    WindCache::at(dir.into(), files, entries)
}

#[test]
fn half_a_store_does_not_show() {
    let manifests = || vec![entry("k1", "2024-01"), entry("k2", "2024-03"), entry("k3", "2024-02")];
    let names = |list: &[&str]| list.iter().map(|s| s.to_string()).collect::<Vec<_>>();
    let c = WindCache::at(
        "d".into(),
        names(&["k1.bin", "k1.json", "k2.json", "k3.json", "k2.bin.partial", "k3.bin", "k4.bin"]),
        manifests(),
    );
    let keys: Vec<&str> = c.entries().iter().map(|e| e.key.as_str()).collect();
    assert_eq!(keys, vec!["k3", "k1"]);
    assert_eq!(c.dir(), "d");
    assert!(c.contains("k1") && c.contains("k3"));
    assert!(!c.contains("k2") && !c.contains("k4") && !c.contains(""));
    assert!(c.find("k2").is_none());
}

#[test]
fn an_entry_describes_its_field() {
    let e = Entry::new(&meta(), &small_field(), 180, now_iso8601(5));
    assert_eq!(e.key, meta().cache_key());
    assert_eq!(e.label, "2024-01-15T06:00:00");
    assert_eq!(e.source.file_size, Some(12345));
    assert_eq!(e.cached_at, "epoch:5");
    assert_eq!((e.bytes, e.levels, e.nx, e.ny), (180, 1, 3, 2));
}

#[test]
fn entries_are_listed_latest_first() {
    let list = newest_first(vec![
        entry("k1", "2024-01-15T06"),
        entry("k2", "synthetic"),
        entry("k3", "2024-01-15T07"),
        entry("k4", "2024-01-15T06"),
        entry("k5", "2024-01-15"),
    ]);
    let keys: Vec<&str> = list.iter().map(|e| e.key.as_str()).collect();
    assert_eq!(keys, vec!["k2", "k3", "k1", "k4", "k5"]);
}

#[test]
fn names_find_entries() {
    let entries = cache("d", vec![entry("aa11", "2024-01-15T06"), entry("ab22", "2024-01-16T06")]);
    let key = |name: &str| entries.find(name).map(|e| e.key.as_str());
    assert_eq!(key("ab22"), Some("ab22"));
    assert_eq!(key("2024-01-15T06"), Some("aa11"));
    assert_eq!(key("ab"), Some("ab22"));
    assert_eq!(key("2024-01-16"), Some("ab22"));
    assert_eq!(key("a"), None);
    assert_eq!(key("2024"), None);
    assert_eq!(key("zz"), None);
    let exact = cache("d", vec![entry("ab", "x"), entry("abc", "y")]);
    assert_eq!(exact.find("ab").map(|e| e.label.as_str()), Some("x"));
}

/// A miss must be loud, but zero wind stays available by name.
#[test]
fn an_unknown_name_is_an_error_not_a_fallback() {
    let none = cache("/tmp/cache", Vec::new());
    let Wanted::Missing(err) = resolve("nope-not-here", &none) else {
        panic!("a miss must be an error");
    };
    assert!(err.contains("no wind cache entry"), "unhelpful error: {err}");
    assert!(err.contains("wind_cache"), "should say how to populate it: {err}");
    assert!(matches!(resolve("none", &none), Wanted::Calm));
    assert!(matches!(resolve("", &none), Wanted::Calm));
    assert!(matches!(resolve("zero", &none), Wanted::Calm));
    assert_eq!(
        err,
        "no wind cache entry matching \"nope-not-here\" in /tmp/cache.\n  known: (cache is \
         empty)\n  populate it with: cargo run --release --bin wind_cache -- fetch <timeIndex...>"
    );
}

#[test]
fn a_miss_lists_what_is_known() {
    let entries = cache("d", vec![entry("aa11", "two"), entry("ab22", "one")]);
    let Wanted::Missing(err) = resolve("three\n", &entries) else {
        panic!("a miss must be an error");
    };
    assert!(err.contains("matching \"three\\n\" in d.\n  known: two, one\n"), "{err}");
    assert!(matches!(resolve("on", &entries), Wanted::Stored(1)));
}

#[test]
fn numbers_and_order_in_text() {
    assert_eq!(text::read_number("0"), Some(0));
    assert_eq!(text::read_number("+17"), Some(17));
    assert_eq!(text::read_number("18446744073709551615"), Some(u64::MAX));
    assert_eq!(text::read_number("18446744073709551616"), None);
    for bad in ["", "+", "-1", "1 ", "++1", "0x1"] {
        assert_eq!(text::read_number(bad), None, "{bad:?}");
    }
    assert!(text::is_before("abc", "abd"));
    assert!(text::is_before("ab", "abc"));
    assert!(!text::is_before("abc", "abc"));
    assert!(text::is_before("z", "\u{e9}"));
    assert!(text::starts_with("abc", ""));
    assert!(!text::starts_with("ab", "abc"));
    let mut s = String::new();
    text::push_signed_decimal(&mut s, i64::MIN);
    text::push_hex(&mut s, 0xbeef, 6);
    assert_eq!(s, "-922337203685477580800beef");
}

#[test]
fn a_server_looks_in_the_store_before_it_fetches() {
    let stored = cache("d", vec![entry("abc", "2024-02"), entry("def", "2024-01")]);
    let (abc, def, new) = ("abc".to_string(), "def".to_string(), "0123".to_string());
    assert!(matches!(start_with("auto", &stored, Some(&def)), Start::Stored(1)));
    assert!(matches!(start_with("auto", &stored, Some(&abc)), Start::Stored(0)));
    assert!(matches!(start_with("auto", &stored, Some(&new)), Start::Fetch));
    assert!(matches!(start_with("auto", &stored, None), Start::Stored(0)));
    assert!(matches!(start_with("auto", &cache("d", vec![]), None), Start::Calm));
    assert!(matches!(start_with("none", &stored, Some(&abc)), Start::Calm));
    assert!(matches!(start_with("2024-01", &stored, Some(&abc)), Start::Stored(1)));
    assert!(matches!(start_with("2023", &stored, None), Start::Missing(_)));
}

#[test]
fn steps_are_asked_for_by_number() {
    assert_eq!(source_url(None), "http://127.0.0.1:8000/api/wind-levels/source");
    assert_eq!(source_url(Some(7)), "http://127.0.0.1:8000/api/wind-levels/source?timeIndex=7");
    assert_eq!(field_url(7, true), "http://127.0.0.1:8000/api/wind-levels");
    assert_eq!(field_url(7, false), "http://127.0.0.1:8000/api/wind-levels?timeIndex=7");
    assert_eq!(steps_to_fetch(&meta(), &vec![]), Some(vec![3]));
    assert_eq!(steps_to_fetch(&meta(), &vec![0, 4]), Some(vec![0, 4]));
    let generated = SourceMeta { synthetic: true, ..meta() };
    assert_eq!(steps_to_fetch(&generated, &vec![1]), None);
}

#[test]
fn places_lie_between_grid_points() {
    let h = small_field().header;
    let at = |col: i64, row: i64| {
        let c = h.corners(col, row);
        (c.col0, c.col1, c.row0, c.row1)
    };
    assert_eq!(at(0, 0), (0, 1, 0, 1));
    assert_eq!(at(1, 0), (1, 2, 0, 1));
    assert_eq!(at(2, 1), (1, 2, 0, 1));
    assert_eq!(at(i64::MAX, i64::MIN), (1, 2, 0, 1));
    let c = WindField::zero().header.corners(5, -5);
    assert_eq!((c.col0, c.col1, c.row0, c.row1), (0, 0, 0, 0));
}

#[test]
fn heights_lie_between_levels() {
    let around = |levels: &[f64], alt: f64| {
        let list = levels
            .iter()
            .map(|&l| Standing { at_most: l <= alt, at_least: l >= alt })
            .collect();
        levels_around(&list)
    };
    assert_eq!(around(&[], 1.0), None);
    assert_eq!(around(&[5.0], 1.0), Some((0, 0)));
    assert_eq!(around(&[5.0], 9.0), Some((0, 0)));
    let three = [5.0, 9.0, 12.0];
    assert_eq!(around(&three, 5.0), Some((0, 0)));
    assert_eq!(around(&three, 7.0), Some((0, 1)));
    assert_eq!(around(&three, 9.0), Some((0, 1)));
    assert_eq!(around(&three, 10.0), Some((1, 2)));
    assert_eq!(around(&three, 12.0), Some((2, 2)));
    assert_eq!(around(&three, f64::NAN), Some((0, 2)));
}
