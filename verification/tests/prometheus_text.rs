//! Prometheus text parsing.

use kvrouters::numbers::{number_text, timestamp_text};
use kvrouters::prometheus_text::{find_in_lines, trimmed_lines};
use kvrouters::text::white_space;

const SAMPLE: &str = r#"# HELP vllm:gpu_prefix_cache_hit_rate GPU prefix cache hit rate.
# TYPE vllm:gpu_prefix_cache_hit_rate gauge
vllm:gpu_prefix_cache_hit_rate{model_name="Qwen/Qwen2.5-0.5B-Instruct"} 0.625
# TYPE vllm:num_requests_running gauge
vllm:num_requests_running 2
"#;

/// The mean over a metric's series.
fn find_metric(text: &str, name: &str) -> Option<f64> {
    let values: Vec<f64> = kvrouters::prometheus_text::find_metric(text, name)?
        .iter()
        .filter_map(|value| value.parse().ok())
        .collect();
    if values.is_empty() {
        None
    } else {
        Some(values.iter().sum::<f64>() / values.len() as f64)
    }
}

#[test]
fn finds_labeled_metric() {
    assert_eq!(
        find_metric(SAMPLE, "vllm:gpu_prefix_cache_hit_rate"),
        Some(0.625)
    );
}

#[test]
fn averages_multiple_series() {
    let text = "m{a=\"1\"} 0.2\nm{a=\"2\"} 0.4\n";
    let value = find_metric(text, "m").unwrap();
    assert!((value - 0.3).abs() < f64::EPSILON, "got {value}");
}

#[test]
fn returns_none_for_absent_metric() {
    assert_eq!(find_metric(SAMPLE, "nope"), None);
}

#[test]
fn skips_comments_and_blank_lines() {
    assert_eq!(find_metric("# m 1\n\n", "m"), None);
}

fn values(text: &str, name: &str) -> Option<Vec<String>> {
    kvrouters::prometheus_text::find_metric(text, name)
}

#[test]
fn value_texts_come_in_order() {
    assert_eq!(
        values("m{a=\"1\"} 0.2\r\n  m 7\nmm 3\nm\tx y\n", "m"),
        Some(vec!["0.2".to_string(), "7".to_string()])
    );
    assert_eq!(values(SAMPLE, "nope"), None);
    assert_eq!(
        values(SAMPLE, "vllm:num_requests_running"),
        Some(vec!["2".to_string()])
    );
}

#[test]
fn timestamps_are_not_values() {
    assert_eq!(find_metric("m 0.5 1700000000\n", "m"), Some(0.5));
    assert_eq!(find_metric("m{a=\"1\"} 0.25\t1700000000\n", "m"), Some(0.25));
}

#[test]
fn labels_may_hold_anything_between_quotes() {
    let text = "m{a=\"x } y\",b=\"q\\\"} 9\"} 3 17\nm {c=\"\\\\\"} 4\n";
    assert_eq!(values(text, "m"), Some(vec!["3".to_string(), "4".to_string()]));
}

#[test]
fn lines_without_a_value_are_passed_over() {
    assert_eq!(
        values("m 1\nm\nm{a=\"1\"}\nm{a=\"1 5\nm 2\n", "m"),
        Some(vec!["1".to_string(), "5".to_string(), "2".to_string()])
    );
    assert_eq!(values("m\n", "m"), None);
    assert_eq!(values("m 1\nother\n", "m"), Some(vec!["1".to_string()]));
}

#[test]
fn malformed_lines_give_the_number_after_the_last_blank() {
    assert_eq!(find_metric("m{ 1\n", "m"), Some(1.0));
    assert_eq!(find_metric("m x 0.5\n", "m"), Some(0.5));
    assert_eq!(find_metric("m x 5\n", "m"), Some(5.0));
    assert_eq!(find_metric("m 1 2 3\n", "m"), Some(3.0));
    assert_eq!(find_metric("m 0.5 1.5\n", "m"), Some(1.5));
    assert_eq!(find_metric("m{a=\"1 5\n", "m"), Some(5.0));
    assert_eq!(find_metric("m 0.5 x\n", "m"), None);
    assert_eq!(find_metric("m\tx y\n", "m"), None);
    assert_eq!(find_metric("m{a=\"1 5\"}\n", "m"), None);
    assert_eq!(find_metric("m{a=\"1\"}3\n", "m"), None);
    assert_eq!(find_metric("m x\nm 2\n", "m"), Some(2.0));
}

#[test]
fn values_may_be_infinite_or_negative() {
    assert_eq!(find_metric("m +Inf\n", "m"), Some(f64::INFINITY));
    assert_eq!(find_metric("m{a=\"1\"} -1.5e3 -17\n", "m"), Some(-1500.0));
    assert!(find_metric("m NaN\n", "m").unwrap().is_nan());
}

#[test]
fn number_texts_are_those_that_parse() {
    let alphabet = ['0', '7', '.', 'e', 'E', '+', '-', 'x'];
    let mut texts = vec![String::new()];
    let mut from = 0;
    for _ in 0..5 {
        let to = texts.len();
        for i in from..to {
            for c in alphabet {
                texts.push(format!("{}{}", texts[i], c));
            }
        }
        from = to;
    }
    for word in ["inf", "INF", "Infinity", "iNfInItY", "nan", "NaN", "in", "infx", "nano"] {
        for sign in ["", "+", "-", "--"] {
            texts.push(format!("{sign}{word}"));
        }
    }
    for text in texts {
        assert_eq!(number_text(&text), text.parse::<f64>().is_ok(), "{text:?}");
    }
}

#[test]
fn timestamp_texts_are_whole_numbers() {
    assert!(timestamp_text("1700000000"));
    assert!(timestamp_text("-5"));
    for text in ["", "-", "+5", "1.5", "1e3", "1 2", "x"] {
        assert!(!timestamp_text(text), "{text:?}");
    }
}

#[test]
fn white_space_is_that_of_unicode() {
    for c in '\0'..=char::MAX {
        assert_eq!(white_space(c), c.is_whitespace(), "{c:?}");
    }
}

#[test]
fn lines_are_trimmed() {
    assert_eq!(trimmed_lines(" a \n\tb\u{a0}\r\n"), vec!["a", "b", ""]);
    let lines = vec!["m 1".to_string(), "n 2".to_string()];
    assert_eq!(find_in_lines(&lines, "n"), Some(vec!["2".to_string()]));
}
