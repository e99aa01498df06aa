use llm_serving_sim::config::parse_config;
use llm_serving_sim::config::SimConfig;
use llm_serving_sim::config::UNSET;
use llm_serving_sim::text::read_usize;
use llm_serving_sim::text::split_words;
use llm_serving_sim::text::starts_with;

fn chars(s: &str) -> Vec<char> {
    s.chars().collect()
}

fn named(v: &[(String, usize)]) -> Vec<(&str, usize)> {
    v.iter().map(|(n, s)| (n.as_str(), *s)).collect()
}

const SAMPLE: &str = "bandwidth 2 1 4\n\
bandwidth 1 2 2\n\
bandwidth 2 3 8\n\
bandwidth 3 2 16\n\
throughput 1 32\n\
throughput 2 64\n\
initialize 1 x 3\n\
initialize 2 w 10\n\
initialize 3 big 100\n\
memory 3 2 big 6\n\
memory 2 3 out 2\n\
memory 2 1 w 5\n\
memory 2 1 v 3\n\
memory 1 2 y 1\n\
compute 1 k0 128\n\
compute 1 k1 64\n\
compute 2 k2 7\n\
a line that means nothing\n";

#[test]
fn parses_every_key() {
    let c = parse_config(SAMPLE).expect("valid file");
    assert_eq!(c.l2_to_l1_bw, 4);
    assert_eq!(c.l1_to_l2_bw, 2);
    assert_eq!(c.l2_to_l3_bw, 8);
    assert_eq!(c.l3_to_l2_bw, 16);
    assert_eq!(c.l1_throughput, 32);
    assert_eq!(c.l2_throughput, 64);
    assert_eq!(c.l3_throughput, UNSET);
    assert_eq!(named(&c.l1_initialize_tensor), vec![("x", 3)]);
    assert_eq!(named(&c.l2_initialize_tensor), vec![("w", 10)]);
    assert_eq!(named(&c.l3_initialize_tensor), vec![("big", 100)]);
    assert_eq!(named(&c.l3_to_l2_tensor), vec![("big", 6)]);
    assert_eq!(named(&c.l2_to_l3_tensor), vec![("out", 2)]);
    assert_eq!(named(&c.l2_to_l1_tensor), vec![("w", 5), ("v", 3)]);
    assert_eq!(named(&c.l1_to_l2_tensor), vec![("y", 1)]);
    assert_eq!(c.l1_kernel, vec![128, 64]);
    assert_eq!(c.l2_kernel, vec![7]);
    assert!(c.l3_kernel.is_empty());
}

#[test]
fn receiver_counters_are_totals_of_moves() {
    let c = parse_config(SAMPLE).expect("valid file");
    assert_eq!(c.l2_to_l1_receiver_counter, 8);
    assert_eq!(c.l3_to_l2_receiver_counter, 6);
    assert_eq!(c.l2_to_l3_receiver_counter, 2);
    assert_eq!(c.l1_to_l2_receiver_counter, 1);
}

#[test]
fn empty_file_gives_defaults() {
    let c = parse_config("").expect("valid file");
    assert_eq!(c.l2_to_l1_bw, 999999);
    assert_eq!(c.l1_throughput, 999999);
    assert_eq!(c.l2_to_l1_receiver_counter, 0);
    assert!(c.l1_initialize_tensor.is_empty());
}

#[test]
fn missing_word_rejects_file() {
    assert!(parse_config("bandwidth 2 1\n").is_none());
    assert!(parse_config("memory 2 1 w\n").is_none());
    assert!(parse_config("initialize 1 x\n").is_none());
}

#[test]
fn non_number_rejects_file() {
    assert!(parse_config("throughput 1 fast\n").is_none());
    assert!(parse_config("compute 1 k -3\n").is_none());
    assert!(parse_config("bandwidth 2 1 99999999999999999999999\n").is_none());
}

#[test]
fn plus_sign_is_accepted() {
    let c = parse_config("throughput 3 +12").expect("valid file");
    assert_eq!(c.l3_throughput, 12);
}

#[test]
fn counter_overflow_rejects_file() {
    let text = format!("memory 2 1 a {}\nmemory 2 1 b 1\n", usize::MAX);
    assert!(parse_config(&text).is_none());
    let text = format!("memory 2 1 a {}\n", usize::MAX);
    assert_eq!(parse_config(&text).unwrap().l2_to_l1_receiver_counter, usize::MAX);
}

#[test]
fn key_must_open_the_line() {
    let c = parse_config(" bandwidth 2 1 4\n").expect("valid file");
    assert_eq!(c.l2_to_l1_bw, UNSET);
}

#[test]
fn key_matches_as_a_prefix() {
    // "throughput 12 5" begins with "throughput 1".
    let c = parse_config("throughput 12 5\n").expect("valid file");
    assert_eq!(c.l1_throughput, 5);
}

#[test]
fn crlf_and_missing_final_newline() {
    let c = parse_config("bandwidth 1 2 3\r\ncompute 3 k 9").expect("valid file");
    assert_eq!(c.l1_to_l2_bw, 3);
    assert_eq!(c.l3_kernel, vec![9]);
}

#[test]
fn later_line_overrides_bandwidth() {
    let c = parse_config("bandwidth 3 2 1\nbandwidth 3 2 7\n").expect("valid file");
    assert_eq!(c.l3_to_l2_bw, 7);
}

#[test]
fn apply_line_reports_failure() {
    let mut c = SimConfig::initial();
    assert!(c.apply_line(&chars("compute 2 k 11")));
    assert_eq!(c.l2_kernel, vec![11]);
    assert!(!c.apply_line(&chars("compute 2 k")));
}

#[test]
fn words_split_on_unicode_white_space() {
    let w = split_words(&chars("  a\u{3000}bc\t\u{85}d  "));
    let w: Vec<String> = w.iter().map(|v| v.iter().collect()).collect();
    assert_eq!(w, vec!["a", "bc", "d"]);
    assert!(split_words(&chars("   ")).is_empty());
}

#[test]
fn numbers_read_like_usize_from_str() {
    assert_eq!(read_usize(&chars("0042")), Some(42));
    assert_eq!(read_usize(&chars("+0")), Some(0));
    assert_eq!(read_usize(&chars("+")), None);
    assert_eq!(read_usize(&chars("")), None);
    assert_eq!(read_usize(&chars("12a")), None);
    assert_eq!(read_usize(&chars("-1")), None);
    assert_eq!(read_usize(&chars(&usize::MAX.to_string())), Some(usize::MAX));
    assert_eq!(read_usize(&chars("18446744073709551616")), None);
}

#[test]
fn prefix_test() {
    assert!(starts_with(&chars("memory 2 1 a 1"), &chars("memory 2 1")));
    assert!(!starts_with(&chars("memory 2"), &chars("memory 2 1")));
}
