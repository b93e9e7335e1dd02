use thermocouple_logger::capture::{Marker, Sample};
use thermocouple_logger::export::{export_filename, export_filename_now, to_csv};

#[test]
fn csv_matches_documented_format() {
    let samples = vec![
        Sample { elapsed: 0, temps: [Some(275), Some(273), Some(274), Some(275)] },
        Sample { elapsed: 1001, temps: [Some(281), Some(279), Some(280), Some(282)] },
    ];
    let markers = vec![
        Marker { elapsed: 12340, label: "contact".to_string() },
        Marker { elapsed: 18920, label: "release".to_string() },
    ];
    let csv = to_csv(&samples, &markers);
    assert_eq!(
        csv,
        "elapsed_s,T1,T2,T3,T4\n0.000,27.5,27.3,27.4,27.5\n1.001,28.1,27.9,28.0,28.2\n\n# Markers\n# elapsed_s,label\n# 12.340,contact\n# 18.920,release\n"
    );
}

#[test]
fn csv_without_markers_has_no_marker_section() {
    let samples = vec![Sample { elapsed: 61_234, temps: [Some(-5), None, Some(0), Some(-1234)] }];
    let csv = to_csv(&samples, &[]);
    assert_eq!(csv, "elapsed_s,T1,T2,T3,T4\n61.234,-0.5,,0.0,-123.4\n");
}

#[test]
fn csv_empty() {
    assert_eq!(to_csv(&[], &[]), "elapsed_s,T1,T2,T3,T4\n");
}

#[test]
fn csv_extreme_values() {
    let samples = vec![Sample { elapsed: u64::MAX, temps: [Some(i16::MIN), Some(i16::MAX - 1), None, None] }];
    let csv = to_csv(&samples, &[]);
    assert_eq!(csv, "elapsed_s,T1,T2,T3,T4\n18446744073709551.615,-3276.8,3276.6,,\n");
}

#[test]
fn csv_cells_agree_with_float_formatting() {
    for raw in [-32768i16, -1001, -10, -9, -1, 0, 1, 9, 10, 99, 275, 32766] {
        let s = Sample { elapsed: 7, temps: [Some(raw), None, None, None] };
        let csv = to_csv(&[s], &[]);
        let expected = format!("elapsed_s,T1,T2,T3,T4\n{:.3},{:.1},,,\n", 0.007f64, raw as f32 / 10.0);
        assert_eq!(csv, expected);
    }
}

#[test]
fn csv_line_count() {
    let samples: Vec<Sample> = (0..5).map(|i| Sample { elapsed: i * 1000, temps: [Some(1); 4] }).collect();
    let markers = vec![Marker { elapsed: 5, label: "x".to_string() }];
    let csv = to_csv(&samples, &markers);
    assert_eq!(csv.matches('\n').count(), 1 + 5 + 3 + 1);
}

#[test]
fn export_file_name() {
    assert_eq!(export_filename("20240131_235959"), "thermode_20240131_235959.csv");
    let now = export_filename_now();
    assert!(now.starts_with("thermode_"));
    assert!(now.ends_with(".csv"));
    assert_eq!(now.len(), "thermode_YYYYMMDD_HHMMSS.csv".len());
    let stamp: Vec<char> = now["thermode_".len()..now.len() - ".csv".len()].chars().collect();
    assert_eq!(stamp[8], '_');
    assert!(stamp.iter().enumerate().all(|(i, c)| i == 8 || c.is_ascii_digit()));
    let two = |i: usize| (stamp[i] as u32 - '0' as u32) * 10 + (stamp[i + 1] as u32 - '0' as u32);
    assert!((1..=12).contains(&two(4)));
    assert!((1..=31).contains(&two(6)));
    assert!(two(9) <= 23 && two(11) <= 59 && two(13) <= 59);
}
