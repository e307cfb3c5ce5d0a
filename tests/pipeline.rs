use logreport::accesslog::{dated_record, parse, parse_line, AccessLog, AccessLogLine, LineError, LinePattern, LogError, ParseError};
use logreport::date::Date;
use logreport::geodata::{response_ok, GeoCache, GeoData, Resolver};
use logreport::report::{city_points, counters, report_lines, summarize, top_counters, Counter, Grouping, ReportLine};
use logreport::text::{has_bot, mentions_bot, text_less};

fn lines(v: &[&str]) -> Vec<String> {
    v.iter().map(|s| s.to_string()).collect()
}

fn geo(country: &str, code: &str, city: &str, lat: f32, lon: f32) -> GeoData {
    GeoData {
        country: country.to_string(),
        country_code: code.to_string(),
        city: city.to_string(),
        lat_bits: lat.to_bits(),
        lon_bits: lon.to_bits(),
    }
}

fn visit(date: &str, ip: &str) -> AccessLogLine {
    AccessLogLine { date: date.to_string(), ip: ip.to_string() }
}

const SYDNEY_ROOT: &str = r#"[01/Jan/2023:10:00:00] 1.1.1.1 GET / 200 "-" "Mozilla/5.0""#;
const SYDNEY_ABOUT: &str = r#"[02/Jan/2023:10:00:00] 1.1.1.1 GET /about 200 "-" "Mozilla/5.0""#;

#[test]
fn root_visit_is_recorded_with_iso_date() {
    let log = parse(&lines(&[SYDNEY_ROOT]), false).unwrap();
    assert_eq!(log.lines.len(), 1);
    assert_eq!(log.lines[0].date, "2023-01-01");
    assert_eq!(log.lines[0].ip, "1.1.1.1");
    assert!(log.skipped.is_empty());
}

#[test]
fn other_paths_and_bots_are_dropped() {
    let input = lines(&[
        SYDNEY_ABOUT,
        r#"[03/Feb/2023:10:00:00] 2.2.2.2 GET / 200 "-" "Googlebot/2.1""#,
        r#"[03/Feb/2023:10:00:00] 2.2.2.3 GET / 200 "-" "Some BOT crawler""#,
        r#"[03/Feb/2023:10:00:00] 2.2.2.4 GET / 200 "-" "curl/8.0""#,
    ]);
    let log = parse(&input, false).unwrap();
    assert_eq!(log.lines.len(), 1);
    assert_eq!(log.lines[0].ip, "2.2.2.4");
    assert_eq!(log.lines[0].date, "2023-02-03");
}

#[test]
fn empty_lines_are_skipped_silently() {
    let log = parse(&lines(&["", SYDNEY_ROOT, ""]), false).unwrap();
    assert_eq!(log.lines.len(), 1);
    assert!(log.skipped.is_empty());
}

#[test]
fn skip_invalid_keeps_valid_lines_and_reports_each_malformed_one() {
    let input = lines(&[
        SYDNEY_ROOT,
        "garbage",
        r#"[05/Mar/2023:10:00:00] 3.3.3.3 GET / 200 "-" "Mozilla/5.0""#,
        "more garbage",
        r#"[32/Jan/2023:10:00:00] 4.4.4.4 GET / 200 "-" "Mozilla/5.0""#,
    ]);
    let log = parse(&input, true).unwrap();
    assert_eq!(log.lines.len(), 2);
    assert_eq!(log.lines[1].date, "2023-03-05");
    assert_eq!(
        log.skipped,
        vec![
            ParseError { line: 2, reason: LineError::Format },
            ParseError { line: 4, reason: LineError::Format },
            ParseError { line: 5, reason: LineError::InvalidDate },
        ]
    );
}

#[test]
fn fail_fast_stops_at_first_malformed_line() {
    let input = lines(&[SYDNEY_ROOT, "", "garbage", "also garbage"]);
    let r = parse(&input, false);
    assert_eq!(r.unwrap_err(), LogError::Line(ParseError { line: 3, reason: LineError::Format }));
}

#[test]
fn bad_date_matters_only_for_counted_lines() {
    let pattern = LinePattern::new().unwrap();
    let bad = r#"[31/Feb/2023:10:00:00] 4.4.4.4 GET / 200 "-" "Mozilla/5.0""#;
    assert_eq!(parse_line(bad, &pattern).unwrap_err(), LineError::InvalidDate);
    let noise = r#"[31/Feb/2023:10:00:00] 4.4.4.4 GET /x 200 "-" "Mozilla/5.0""#;
    assert!(parse_line(noise, &pattern).unwrap().is_none());
}

#[test]
fn dated_record_formats_and_rejects() {
    let r = dated_record(Some(Date { year: 2023, month: 1, day: 9 }), "1.2.3.4".to_string()).unwrap();
    assert_eq!(r.date, "2023-01-09");
    assert_eq!(r.ip, "1.2.3.4");
    assert_eq!(dated_record(None, "x".to_string()).unwrap_err(), LineError::InvalidDate);
    assert_eq!(
        dated_record(Some(Date { year: 12023, month: 1, day: 9 }), "x".to_string()).unwrap_err(),
        LineError::InvalidDate
    );
}

#[test]
fn iso_text_pads_fields() {
    assert_eq!(Date { year: 987, month: 3, day: 4 }.to_iso(), "0987-03-04");
    assert_eq!(Date { year: 2024, month: 12, day: 31 }.to_iso(), "2024-12-31");
}

#[test]
fn bot_detection_ignores_case() {
    assert!(mentions_bot("Mozilla (compatible; GoogleBOT)"));
    assert!(mentions_bot("bot"));
    assert!(!mentions_bot("Mozilla/5.0"));
    assert!(!has_bot("BOT"));
    assert!(has_bot("a robot"));
}

#[test]
fn text_order_is_lexicographic() {
    assert!(text_less(&"AU".to_string(), &"US".to_string()));
    assert!(text_less(&"2023-01-01".to_string(), &"2023-01-02".to_string()));
    assert!(text_less(&"ab".to_string(), &"abc".to_string()));
    assert!(!text_less(&"abc".to_string(), &"abc".to_string()));
}

#[test]
fn get_ips_and_append_keep_order() {
    let mut log = AccessLog { lines: vec![visit("2023-01-01", "1.1.1.1")], skipped: vec![] };
    let other = AccessLog {
        lines: vec![visit("2023-01-02", "2.2.2.2")],
        skipped: vec![ParseError { line: 7, reason: LineError::MissingIp }],
    };
    log.append(other);
    assert_eq!(log.get_ips(), vec!["1.1.1.1".to_string(), "2.2.2.2".to_string()]);
    assert_eq!(log.skipped.len(), 1);
}

#[test]
fn cache_insert_replaces_and_round_trips() {
    let mut cache = GeoCache::new();
    cache.insert("1.1.1.1".to_string(), geo("Australia", "AU", "Sydney", -33.8, 151.2));
    cache.insert("8.8.8.8".to_string(), geo("United States", "US", "Mountain View", 37.4, -122.1));
    cache.insert("1.1.1.1".to_string(), geo("Australia", "AU", "Melbourne", -37.8, 144.9));
    assert_eq!(cache.len(), 2);
    assert!(cache.contains(&"8.8.8.8".to_string()));
    assert!(!cache.contains(&"9.9.9.9".to_string()));
    assert_eq!(cache.get(&"1.1.1.1".to_string()).unwrap().city, "Melbourne");
    let back = GeoCache::from_entries(cache.entries());
    assert_eq!(back.len(), 2);
    assert_eq!(back.get(&"1.1.1.1".to_string()).unwrap().city, "Melbourne");
    assert_eq!(back.get(&"8.8.8.8".to_string()).unwrap().lat_bits, 37.4f32.to_bits());
}

#[test]
fn from_entries_last_write_wins() {
    let entries = vec![
        ("1.1.1.1".to_string(), geo("A", "AA", "X", 0.0, 0.0)),
        ("1.1.1.1".to_string(), geo("B", "BB", "Y", 0.0, 0.0)),
    ];
    let cache = GeoCache::from_entries(&entries);
    assert_eq!(cache.len(), 1);
    assert_eq!(cache.get(&"1.1.1.1".to_string()).unwrap().country, "B");
}

#[test]
fn resolver_asks_only_for_missing_addresses() {
    let mut cache = GeoCache::new();
    cache.insert("1.1.1.1".to_string(), geo("Australia", "AU", "Sydney", -33.8, 151.2));
    let ips = vec!["1.1.1.1".to_string(), "2.2.2.2".to_string(), "2.2.2.2".to_string(), "3.3.3.3".to_string()];
    let mut r = Resolver::new(cache, ips);
    assert_eq!(r.next_lookup(), Some("2.2.2.2".to_string()));
    assert_eq!(r.position(), 1);
    r.record("2.2.2.2".to_string(), geo("Germany", "DE", "Berlin", 52.5, 13.4));
    assert_eq!(r.next_lookup(), Some("3.3.3.3".to_string()));
    assert_eq!(r.cache_hits(), 2);
    assert_eq!(r.position(), 3);
    r.record("3.3.3.3".to_string(), geo("France", "FR", "Paris", 48.9, 2.4));
    assert_eq!(r.next_lookup(), None);
    assert_eq!(r.into_cache().len(), 3);
}

#[test]
fn failed_run_keeps_resolved_entries_and_resume_skips_them() {
    let ips = vec!["1.1.1.1".to_string(), "2.2.2.2".to_string(), "3.3.3.3".to_string()];
    let mut r = Resolver::new(GeoCache::new(), ips.clone());
    let first = r.next_lookup().unwrap();
    r.record(first, geo("Australia", "AU", "Sydney", -33.8, 151.2));
    let second = r.next_lookup().unwrap();
    assert_eq!(second, "2.2.2.2");
    // the lookup of the second address fails: the run stores what it has
    let saved = GeoCache::from_entries(r.cache().entries());
    assert_eq!(saved.len(), 1);
    assert!(saved.contains(&"1.1.1.1".to_string()));
    let mut again = Resolver::new(saved, ips);
    assert_eq!(again.next_lookup(), Some("2.2.2.2".to_string()));
}

#[test]
fn success_statuses() {
    assert!(response_ok(200));
    assert!(response_ok(204));
    assert!(!response_ok(199));
    assert!(!response_ok(300));
    assert!(!response_ok(404));
    assert!(!response_ok(500));
}

fn sample_log() -> AccessLog {
    parse(&lines(&[SYDNEY_ROOT, SYDNEY_ABOUT]), false).unwrap()
}

fn sydney_cache() -> GeoCache {
    let mut cache = GeoCache::new();
    cache.insert("1.1.1.1".to_string(), geo("Australia", "AU", "Sydney", -33.8, 151.2));
    cache
}

#[test]
fn example_end_to_end() {
    let log = sample_log();
    assert_eq!(log.lines.len(), 1);
    assert_eq!(log.lines[0].date, "2023-01-01");
    let s = summarize(&log, &sydney_cache());
    assert_eq!(s.days.len(), 1);
    assert_eq!((s.days[0].name.as_str(), s.days[0].count), ("2023-01-01", 1));
    assert_eq!(s.countries.len(), 1);
    assert_eq!((s.countries[0].name.as_str(), s.countries[0].count), ("AU", 1));
    assert_eq!(s.cities.len(), 1);
    assert_eq!((s.cities[0].name.as_str(), s.cities[0].count), ("Sydney", 1));
    assert_eq!(s.points.len(), 1);
    assert_eq!(s.points[0].name, "Sydney");
    assert_eq!(f32::from_bits(s.points[0].lat_bits), -33.8);
    assert_eq!(f32::from_bits(s.points[0].lon_bits), 151.2);
}

#[test]
fn report_lines_drop_unresolved_addresses() {
    let log = AccessLog {
        lines: vec![visit("2023-01-01", "1.1.1.1"), visit("2023-01-01", "5.5.5.5"), visit("2023-01-02", "1.1.1.1")],
        skipped: vec![],
    };
    let rows = report_lines(&log, &sydney_cache());
    assert_eq!(rows.len(), 2);
    assert_eq!(rows[1].date, "2023-01-02");
    assert_eq!(rows[1].city, "Sydney");
    assert_eq!(rows[1].country_code, "AU");
}

fn row(date: &str, ip: &str, code: &str, city: &str, lat: f32) -> ReportLine {
    ReportLine {
        date: date.to_string(),
        ip: ip.to_string(),
        country: String::new(),
        country_code: code.to_string(),
        city: city.to_string(),
        lat_bits: lat.to_bits(),
        lon_bits: 0,
    }
}

fn pairs(cs: &[Counter]) -> Vec<(String, usize)> {
    cs.iter().map(|c| (c.name.clone(), c.count)).collect()
}

#[test]
fn city_counters_count_distinct_addresses_and_skip_empty_city() {
    let mut rows = Vec::new();
    for i in 0..5 {
        rows.push(row("2023-01-01", &format!("10.0.0.{}", i), "AU", "A", 1.0));
        rows.push(row("2023-01-02", &format!("10.0.0.{}", i), "AU", "A", 1.0));
    }
    for i in 0..3 {
        rows.push(row("2023-01-01", &format!("10.0.1.{}", i), "NZ", "B", 2.0));
    }
    for i in 0..2 {
        rows.push(row("2023-01-03", &format!("10.0.2.{}", i), "AU", "", 3.0));
    }
    let all = counters(&rows, Grouping::City);
    let top = top_counters(&all, 8);
    assert_eq!(pairs(&top), vec![("A".to_string(), 5), ("B".to_string(), 3)]);
    let days = counters(&rows, Grouping::Day);
    assert_eq!(
        pairs(&days),
        vec![("2023-01-01".to_string(), 8), ("2023-01-02".to_string(), 5), ("2023-01-03".to_string(), 2)]
    );
    let countries = counters(&rows, Grouping::Country);
    assert_eq!(pairs(&countries), vec![("AU".to_string(), 7), ("NZ".to_string(), 3)]);
}

#[test]
fn top_eight_of_ten_cities() {
    let mut rows = Vec::new();
    for c in 0..10 {
        for i in 0..(c + 1) {
            rows.push(row("2023-01-01", &format!("10.{}.0.{}", c, i), "AU", &format!("city{}", c), 0.0));
        }
    }
    let top = top_counters(&counters(&rows, Grouping::City), 8);
    let expected: Vec<(String, usize)> = (2..10).rev().map(|c| (format!("city{}", c), c + 1)).collect();
    assert_eq!(pairs(&top), expected);
}

#[test]
fn equal_counts_rank_by_name() {
    let rows = vec![
        row("d", "1", "X", "Zurich", 0.0),
        row("d", "2", "X", "Basel", 0.0),
        row("d", "3", "X", "Bern", 0.0),
        row("d", "4", "X", "Bern", 0.0),
    ];
    let top = top_counters(&counters(&rows, Grouping::City), 2);
    assert_eq!(pairs(&top), vec![("Bern".to_string(), 2), ("Basel".to_string(), 1)]);
}

#[test]
fn one_point_per_city_first_coordinates_win() {
    let rows = vec![
        row("d", "1.1.1.1", "AU", "Sydney", -33.8),
        row("d", "1.1.1.2", "AU", "Sydney", -34.0),
        row("d", "2.2.2.2", "AU", "Perth", -31.9),
    ];
    let points = city_points(&rows);
    assert_eq!(points.len(), 2);
    assert_eq!(points[0].name, "Sydney");
    assert_eq!(points[0].lat_bits, (-33.8f32).to_bits());
    assert_eq!(points[1].name, "Perth");
}

#[test]
fn line_prints_date_and_address() {
    assert_eq!(visit("2023-01-01", "1.1.1.1").to_text(), "[2023-01-01 1.1.1.1]");
}

#[test]
fn same_place_ignores_coordinates() {
    let a = geo("Australia", "AU", "Sydney", -33.8, 151.2);
    let b = geo("Australia", "XX", "Sydney", 0.0, 0.0);
    let c = geo("Australia", "AU", "Perth", -33.8, 151.2);
    assert!(a.same_place(&b));
    assert!(!a.same_place(&c));
}

#[test]
fn line_pattern_compiles() {
    assert!(LinePattern::new().is_some());
}

#[test]
fn inserted_noise_lines_keep_records() {
    let plain = lines(&[SYDNEY_ROOT, r#"[05/Mar/2023:10:00:00] 3.3.3.3 GET / 200 "-" "Mozilla/5.0""#]);
    let noisy = lines(&[
        r#"[04/Mar/2023:10:00:00] 9.9.9.9 GET /feed 200 "-" "Mozilla/5.0""#,
        SYDNEY_ROOT,
        r#"[04/Mar/2023:10:00:00] 9.9.9.8 GET / 200 "-" "YandexBot/3.0""#,
        r#"[05/Mar/2023:10:00:00] 3.3.3.3 GET / 200 "-" "Mozilla/5.0""#,
    ]);
    let a = parse(&plain, false).unwrap();
    let b = parse(&noisy, false).unwrap();
    let pairs_of = |log: &AccessLog| log.lines.iter().map(|l| (l.date.clone(), l.ip.clone())).collect::<Vec<_>>();
    assert_eq!(pairs_of(&a), pairs_of(&b));
}

#[test]
fn finished_run_covers_every_address_and_keeps_loaded_entries() {
    let mut cache = GeoCache::new();
    cache.insert("1.1.1.1".to_string(), geo("Australia", "AU", "Sydney", -33.8, 151.2));
    let ips = vec!["2.2.2.2".to_string(), "1.1.1.1".to_string(), "3.3.3.3".to_string()];
    let mut r = Resolver::new(cache, ips.clone());
    while let Some(ip) = r.next_lookup() {
        r.record(ip, geo("Elsewhere", "EL", "Town", 1.0, 1.0));
    }
    let done = r.into_cache();
    assert_eq!(done.len(), 3);
    for ip in &ips {
        assert!(done.contains(ip));
    }
    assert_eq!(done.get(&"1.1.1.1".to_string()).unwrap().city, "Sydney");
}
