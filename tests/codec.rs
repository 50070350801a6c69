use microbin::codec::Codec;

const ALPHABET: &str = "Zq7Xk2WmB9rT4vLpN1sDfG8hJ3cKyE6uA0oRiMnYb5xHtVzSgQ";

fn words(ws: &[&str]) -> Vec<String> {
    ws.iter().map(|w| w.to_string()).collect()
}

fn three() -> Codec {
    Codec::mnemonic(words(&["ant", "bee", "cat"])).unwrap()
}

#[test]
fn mnemonic_base_three_four_is_two_words() {
    let c = three();
    assert_eq!(c.encode(4), "bee-bee");
    assert_eq!(c.decode("bee-bee"), Some(4));
}

#[test]
fn mnemonic_small_values() {
    let c = three();
    assert_eq!(c.encode(0), "ant");
    assert_eq!(c.encode(2), "cat");
    assert_eq!(c.encode(3), "bee-ant");
    assert_eq!(c.encode(9), "bee-ant-ant");
    assert_eq!(c.decode("cat-cat"), Some(8));
}

#[test]
fn mnemonic_round_trip_over_a_range() {
    let c = three();
    for i in 0..3000u64 {
        assert_eq!(c.decode(&c.encode(i)), Some(i));
    }
    assert_eq!(c.decode(&c.encode(u64::MAX)), Some(u64::MAX));
}

#[test]
fn compact_round_trip_over_a_range() {
    let c = Codec::compact(ALPHABET).unwrap();
    for i in 0..5000u64 {
        assert_eq!(c.decode(&c.encode(i)), Some(i));
    }
    for i in [u64::MAX, u64::MAX - 1, 1 << 40] {
        assert_eq!(c.decode(&c.encode(i)), Some(i));
    }
}

#[test]
fn compact_digits() {
    let c = Codec::compact("abc").unwrap();
    assert_eq!(c.encode(0), "a");
    assert_eq!(c.encode(5), "bc");
    assert_eq!(c.decode("bc"), Some(5));
}

#[test]
fn encodings_are_distinct() {
    let c = Codec::compact(ALPHABET).unwrap();
    let mut seen = std::collections::HashSet::new();
    for i in 0..5000u64 {
        assert!(seen.insert(c.encode(i)));
    }
    let m = three();
    let mut seen = std::collections::HashSet::new();
    for i in 0..3000u64 {
        assert!(seen.insert(m.encode(i)));
    }
}

#[test]
fn decode_rejects_malformed() {
    let c = three();
    for s in ["", "dog", "ant-", "-ant", "bee--bee", "ant-bee", "Bee", "bee-", "beebee", "bee ant"] {
        assert_eq!(c.decode(s), None, "{s}");
    }
    let long = vec!["cat"; 60].join("-");
    assert_eq!(c.decode(&long), None);
    let k = Codec::compact("abc").unwrap();
    for s in ["", "d", "ab-c", "aa", "é"] {
        assert_eq!(k.decode(s), None, "{s}");
    }
    assert_eq!(k.decode(&"c".repeat(70)), None);
}

#[test]
fn invalid_vocabularies_are_refused() {
    assert!(Codec::mnemonic(words(&["ant"])).is_none());
    assert!(Codec::mnemonic(words(&["ant", "ant"])).is_none());
    assert!(Codec::mnemonic(words(&["ant", ""])).is_none());
    assert!(Codec::mnemonic(words(&["ant", "b-ee"])).is_none());
    assert!(Codec::mnemonic(words(&["pig", "pigeon"])).is_some());
    assert!(Codec::compact("aa").is_none());
    assert!(Codec::compact("a").is_none());
    assert!(Codec::compact("").is_none());
    assert!(Codec::new(words(&["ab", "c"]), String::new()).is_none());
    assert!(Codec::new(words(&["ab", "c"]), "/".to_string()).is_some());
}

#[test]
fn prefix_words_decode() {
    let c = Codec::mnemonic(words(&["pig", "pigeon"])).unwrap();
    assert_eq!(c.encode(2), "pigeon-pig");
    assert_eq!(c.decode("pigeon-pig"), Some(2));
    assert_eq!(c.decode("pigeon-pigeon"), Some(3));
}
