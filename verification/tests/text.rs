use mythos::rng::{scramble, SplitMix64};
use mythos::text;

fn words(s: &str) -> Vec<String> {
    text::split_words(&text::chars_of(s)).iter().map(|w| w.iter().collect()).collect()
}

#[test]
fn words_are_split_at_any_space() {
    assert_eq!(words("  go\tdepth \u{3000}8\n"), ["go", "depth", "8"]);
    assert!(words(" \r\n").is_empty());
}

#[test]
fn pieces_keep_empty_parts() {
    let p: Vec<String> = text::split_at(&text::chars_of("a,,b,"), ',')
        .iter()
        .map(|w| w.iter().collect())
        .collect();
    assert_eq!(p, ["a", "", "b", ""]);
}

#[test]
fn numbers_are_written_and_read_back() {
    for n in [0u64, 7, 10, 99, 12_345, u64::MAX] {
        let mut s = String::new();
        text::push_u64(&mut s, n);
        assert_eq!(s, n.to_string());
        assert_eq!(text::parse_number(&text::chars_of(&s), u64::MAX), Some(n));
    }
    for n in [0i32, -1, 42, i32::MIN, i32::MAX] {
        let mut s = String::new();
        text::push_i32(&mut s, n);
        assert_eq!(s, n.to_string());
    }
    assert_eq!(text::parse_number(&text::chars_of("+5"), 10), Some(5));
    assert_eq!(text::parse_number(&text::chars_of("11"), 10), None);
    assert_eq!(text::parse_number(&text::chars_of(""), 10), None);
    assert_eq!(text::parse_number(&text::chars_of("-1"), 10), None);
    assert_eq!(text::parse_number(&text::chars_of("1x"), 10), None);
}

#[test]
fn trimming_and_finding() {
    let s: String = text::trim(&text::chars_of(" \t a b \n")).iter().collect();
    assert_eq!(s, "a b");
    assert_eq!(text::find(&text::chars_of("a value b value c"), " value "), Some(1));
    assert_eq!(text::find(&text::chars_of("value"), " value "), None);
    assert!(text::same_word(&text::chars_of("cLeAr HaSh"), "Clear Hash"));
}

#[test]
fn the_generator_gives_the_known_numbers() {
    // The first outputs of SplitMix64 with seed 1234567.
    let mut r = SplitMix64::new(1_234_567);
    assert_eq!(r.next(), 6_457_827_717_110_365_317);
    assert_eq!(r.next(), 3_203_168_211_198_807_973);
    assert_eq!(scramble(0), 0);
    let mut a = SplitMix64::new(9);
    let mut b = SplitMix64::new(9);
    let x = a.next();
    assert_eq!(b.below(10) as u64, x % 10);
    let mut c = SplitMix64::new(9);
    assert_eq!(c.next_24_bits() as u64, x >> 40);
}
