use measurements_gen::args::check_args;
use measurements_gen::generate::{
    format_batch, generate_batch, num_batches, progress_line, progress_step, random_index,
    random_tenths, sample_names, should_report, BATCH_SIZE, SAMPLE_SIZE,
};
use measurements_gen::names::build_weather_station_name_list;
use measurements_gen::report::{convert_bytes, estimate_file_size, format_elapsed_time};
use rand::rngs::StdRng;
use rand::SeedableRng;

fn strings(v: &[&str]) -> Vec<String> {
    v.iter().map(|s| s.to_string()).collect()
}

#[test]
fn elapsed_seconds_only() {
    assert_eq!(format_elapsed_time(45), "45 seconds");
    assert_eq!(format_elapsed_time(0), "0 seconds");
}

#[test]
fn elapsed_minutes_and_seconds() {
    assert_eq!(format_elapsed_time(125), "2 minutes 5 seconds");
    assert_eq!(format_elapsed_time(60), "1 minutes 0 seconds");
}

#[test]
fn elapsed_hours_minutes_seconds() {
    assert_eq!(format_elapsed_time(3725), "1 hours 2 minutes 5 seconds");
    assert_eq!(format_elapsed_time(3600), "1 hours 0 minutes 0 seconds");
    assert_eq!(format_elapsed_time(90061), "25 hours 1 minutes 1 seconds");
}

#[test]
fn bytes_unit_selection() {
    assert_eq!(convert_bytes(500), "500.0 bytes");
    assert_eq!(convert_bytes(0), "0.0 bytes");
    assert_eq!(convert_bytes(1023), "1023.0 bytes");
    assert_eq!(convert_bytes(1024), "1.0 KiB");
    assert_eq!(convert_bytes(2048), "2.0 KiB");
    assert_eq!(convert_bytes(1536), "1.5 KiB");
    assert_eq!(convert_bytes(1048576), "1.0 MiB");
    assert_eq!(convert_bytes(1073741824), "1.0 GiB");
}

#[test]
fn bytes_tebibytes_past_gibibytes() {
    assert_eq!(convert_bytes(1099511627776), "1.0 TiB");
    assert_eq!(convert_bytes(3 * 1099511627776), "3.0 TiB");
    assert_eq!(convert_bytes(2048 * 1099511627776), "2048.0 TiB");
}

#[test]
fn bytes_rounding_matches_float_formatting() {
    for n in [1280u64, 1100, 1075, 5000, 123456, 1048575, 987654321, 5_000_000_000_000] {
        let f = n as f64;
        let expected = if f < 1024.0 {
            format!("{:.1} bytes", f)
        } else if f / 1024.0 < 1024.0 {
            format!("{:.1} KiB", f / 1024.0)
        } else if f / 1048576.0 < 1024.0 {
            format!("{:.1} MiB", f / 1048576.0)
        } else if f / 1073741824.0 < 1024.0 {
            format!("{:.1} GiB", f / 1073741824.0)
        } else {
            format!("{:.1} TiB", f / 1099511627776.0)
        };
        assert_eq!(convert_bytes(n), expected);
    }
}

#[test]
fn estimate_uses_longest_and_shortest_names() {
    let names = strings(&["ab", "abcd"]);
    assert_eq!(
        estimate_file_size(&names, 10),
        "Estimated max file size is:  150.0 bytes.\nTrue size is probably much smaller (around half)."
    );
}

#[test]
fn estimate_counts_bytes_not_characters() {
    let names = strings(&["Zürich"]);
    // 7 + 2 * 7 + 7 bytes per record
    assert_eq!(
        estimate_file_size(&names, 1000),
        "Estimated max file size is:  27.3 KiB.\nTrue size is probably much smaller (around half)."
    );
}

#[test]
fn estimate_empty_or_no_rows() {
    let none: Vec<String> = Vec::new();
    let expected = "Estimated max file size is:  0.0 bytes.\nTrue size is probably much smaller (around half).";
    assert_eq!(estimate_file_size(&none, 1000), expected);
    assert_eq!(estimate_file_size(&strings(&["abc"]), -5), expected);
    assert_eq!(estimate_file_size(&strings(&["abc"]), 0), expected);
}

#[test]
fn args_accept_positive_count() {
    assert_eq!(check_args(&strings(&["prog", "1000"])), Some(1000));
    assert_eq!(check_args(&strings(&["prog", "+42"])), Some(42));
    assert_eq!(check_args(&strings(&["prog", "007"])), Some(7));
    assert_eq!(check_args(&strings(&["prog", "2147483647"])), Some(2147483647));
}

#[test]
fn args_reject_invalid() {
    assert_eq!(check_args(&strings(&["prog", "abc"])), None);
    assert_eq!(check_args(&strings(&["prog", "-1"])), None);
    assert_eq!(check_args(&strings(&["prog", "-5"])), None);
    assert_eq!(check_args(&strings(&["prog", "0"])), None);
    assert_eq!(check_args(&strings(&["prog", ""])), None);
    assert_eq!(check_args(&strings(&["prog", "+"])), None);
    assert_eq!(check_args(&strings(&["prog", "2147483648"])), None);
    assert_eq!(check_args(&strings(&["prog", "99999999999999999999"])), None);
    assert_eq!(check_args(&strings(&["prog", "1_000"])), None);
    assert_eq!(check_args(&strings(&["prog"])), None);
    assert_eq!(check_args(&strings(&[])), None);
    assert_eq!(check_args(&strings(&["prog", "1", "2"])), None);
}

#[test]
fn names_sorted_deduplicated_without_comments() {
    let text = "# Adapted from a list\nBern;46.9\nAbha;18.2\nBern;47.0\nCairo#x;30.0\nZ;1 # note\n";
    assert_eq!(build_weather_station_name_list(text), strings(&["Abha", "Bern"]));
}

#[test]
fn names_loading_is_deterministic() {
    let text = "Tokyo;35.6\nOslo;59.9\nLima;-12.0\nOslo;60.0\n";
    let a = build_weather_station_name_list(text);
    let b = build_weather_station_name_list(text);
    assert_eq!(a, b);
    assert_eq!(a, strings(&["Lima", "Oslo", "Tokyo"]));
}

#[test]
fn names_lines_and_fields() {
    assert_eq!(build_weather_station_name_list(""), Vec::<String>::new());
    assert_eq!(build_weather_station_name_list("# only\n#x"), Vec::<String>::new());
    assert_eq!(build_weather_station_name_list("A;1\r\nB\r\nC"), strings(&["A", "B", "C"]));
    assert_eq!(build_weather_station_name_list("Zürich;1\nAarhus;2"), strings(&["Aarhus", "Zürich"]));
    assert_eq!(build_weather_station_name_list("b;1\na\nab;x;y"), strings(&["a", "ab", "b"]));
}

#[test]
fn records_have_one_fractional_digit() {
    let names = strings(&["X", "Yz"]);
    assert_eq!(format_batch(&names, &[1, 0], &[-123, 5]), "Yz;-12.3\nX;0.5\n");
    assert_eq!(format_batch(&names, &[0, 0, 0], &[999, -999, 0]), "X;99.9\nX;-99.9\nX;0.0\n");
    assert_eq!(format_batch(&names, &[], &[]), "");
}

#[test]
fn batch_counts_truncate_to_whole_batches() {
    assert_eq!(num_batches(10000), 1);
    assert_eq!(num_batches(1_000_000), 100);
    assert_eq!(num_batches(25000), 2);
    assert_eq!(num_batches(9999), 0);
    assert_eq!(num_batches(0), 0);
    assert_eq!(num_batches(-5), 0);
}

#[test]
fn progress_redraws() {
    assert_eq!(progress_step(5), 1);
    assert_eq!(progress_step(250), 2);
    assert_eq!(progress_step(100_000), 1000);
    assert!(should_report(0, 250, 2));
    assert!(!should_report(1, 250, 2));
    assert!(should_report(249, 250, 2));
    assert_eq!(
        progress_line(0, 2),
        format!("\r[{}{}] 50%", "=".repeat(25), " ".repeat(25))
    );
    assert_eq!(progress_line(1, 2), format!("\r[{}] 100%", "=".repeat(50)));
    assert_eq!(progress_line(0, 3), format!("\r[{}{}] 33%", "=".repeat(16), " ".repeat(34)));
}

#[test]
fn random_draws_stay_in_range() {
    let mut rng = StdRng::seed_from_u64(7);
    let mut seen_negative = false;
    let mut seen_positive = false;
    for _ in 0..5000 {
        let t = random_tenths(&mut rng);
        assert!((-999..=999).contains(&t));
        seen_negative |= t < 0;
        seen_positive |= t > 0;
        assert!(random_index(&mut rng, 3) < 3);
    }
    assert!(seen_negative && seen_positive);
}

#[test]
fn sample_drawn_from_names() {
    let names = strings(&["A", "B", "C"]);
    let mut rng = StdRng::seed_from_u64(1);
    let sample = sample_names(&names, &mut rng);
    assert_eq!(sample.len(), SAMPLE_SIZE);
    assert!(sample.iter().all(|s| names.contains(s)));
    assert!(names.iter().all(|n| sample.contains(n)));
}

#[test]
fn generated_batch_lines_match_pattern() {
    let names = build_weather_station_name_list("Oslo;1\nLima;2\nZürich;3\n");
    let mut rng = StdRng::seed_from_u64(42);
    let sample = sample_names(&names, &mut rng);
    let batch = generate_batch(&sample, &mut rng);
    assert!(batch.ends_with('\n'));
    let lines: Vec<&str> = batch.lines().collect();
    assert_eq!(lines.len(), BATCH_SIZE);
    for line in lines {
        let (name, temp) = line.split_once(';').unwrap();
        assert!(names.iter().any(|n| n == name));
        let (whole, frac) = temp.split_once('.').unwrap();
        assert_eq!(frac.len(), 1);
        let digits = whole.strip_prefix('-').unwrap_or(whole);
        assert!(!digits.is_empty() && digits.chars().all(|c| c.is_ascii_digit()));
        let t: f64 = temp.parse().unwrap();
        assert!((-99.9..=99.9).contains(&t));
    }
}
