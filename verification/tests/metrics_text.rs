use rays::metrics::{write_metric, FmtLabels};

#[test]
fn empty_labels_render_nothing() {
    let base: Vec<(String, String)> = Vec::new();
    let labels = FmtLabels { base: &base, extra: None };
    assert!(labels.is_empty());
    assert_eq!(labels.to_text(), "");
}

#[test]
fn base_pairs_render_comma_separated() {
    let base = vec![
        ("job".to_string(), "render".to_string()),
        ("pass".to_string(), "2".to_string()),
    ];
    let labels = FmtLabels { base: &base, extra: None };
    assert!(!labels.is_empty());
    assert_eq!(labels.to_text(), "{job=\"render\", pass=\"2\"}");
}

#[test]
fn with_extra_renders_the_extra_pair_first() {
    let base = vec![("job".to_string(), "render".to_string())];
    let labels = FmtLabels { base: &base, extra: None };
    let tagged = labels.with_extra("quantile", "0.99");
    assert!(!tagged.is_empty());
    assert_eq!(tagged.to_text(), "{quantile=\"0.99\", job=\"render\"}");
    // the original is untouched
    assert_eq!(labels.to_text(), "{job=\"render\"}");
}

#[test]
fn extra_alone_still_gets_braces() {
    let base: Vec<(String, String)> = Vec::new();
    let labels = FmtLabels { base: &base, extra: None }.with_extra("quantile", "0.5");
    assert!(!labels.is_empty());
    assert_eq!(labels.to_text(), "{quantile=\"0.5\"}");
}

#[test]
fn write_metric_appends_one_line() {
    let mut out = String::new();
    let base = vec![("worker".to_string(), "3".to_string())];
    let labels = FmtLabels { base: &base, extra: None };
    write_metric(&mut out, "time_per_ray_us_count", &labels, "128");
    assert_eq!(out, "time_per_ray_us_count{worker=\"3\"} 128\n");
    let empty_base: Vec<(String, String)> = Vec::new();
    let bare = FmtLabels { base: &empty_base, extra: None };
    write_metric(&mut out, "passes", &bare, "7");
    assert_eq!(
        out,
        "time_per_ray_us_count{worker=\"3\"} 128\npasses 7\n"
    );
}
