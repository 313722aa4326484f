use keygen::enumerate::consume;
use keygen::{
    generate_inc, generate_inc_with, parse_regex, GenerationError, List, Quantifier, Regex,
    RegexSymbol, Sampler,
};

/// Hands out one number for every draw.
struct Fixed(u64);

impl Sampler for Fixed {
    fn draw(&mut self, _low: u64, _high: u64) -> u64 {
        self.0
    }
}

fn at(pattern: &str, index: u64) -> (String, u64) {
    let tree = parse_regex(pattern).unwrap();
    let mut i = index;
    let text = generate_inc(&tree, &mut i).unwrap();
    (text, i)
}

#[test]
fn single_class_visits_every_member_once_in_order() {
    for index in 0..10u64 {
        assert_eq!(at("[0-9]", index), (index.to_string(), 0));
    }
    let members = "qwertz";
    for (index, c) in members.chars().enumerate() {
        assert_eq!(at("[qwertz]", index as u64), (c.to_string(), 0));
    }
}

#[test]
fn class_index_wraps_past_its_size() {
    assert_eq!(at("[0-9]", 10), ("0".to_string(), 1));
    assert_eq!(at("[0-9]", 47), ("7".to_string(), 4));
}

#[test]
fn digits_decode_the_counter() {
    assert_eq!(at("[0-9]{3}", 0), ("000".to_string(), 0));
    assert_eq!(at("[0-9]{3}", 7), ("007".to_string(), 0));
    assert_eq!(at("[0-9]{3}", 123), ("123".to_string(), 0));
    assert_eq!(at("[0-9]{3}", 999), ("999".to_string(), 0));
    assert_eq!(at("[0-9]{3}", 4321), ("321".to_string(), 4));
}

#[test]
fn mixed_radix_reads_right_to_left() {
    assert_eq!(at("[ab][0-9]", 13), ("b3".to_string(), 0));
    assert_eq!(at("[ab][0-9]", 7), ("a7".to_string(), 0));
    assert_eq!(at("[ab][xyz]", 4), ("by".to_string(), 0));
    assert_eq!(at("[xyz][ab]", 4), ("za".to_string(), 0));
}

#[test]
fn literal_is_the_same_at_every_index() {
    for index in [0u64, 1, 2, 3, 10, 1000, u64::MAX] {
        assert_eq!(at("a{3}", index), ("aaa".to_string(), index));
    }
}

#[test]
fn literals_leave_the_counter_to_their_neighbours() {
    assert_eq!(at("id-[0-9]{2}-x", 42), ("id-42-x".to_string(), 0));
}

#[test]
fn dot_offsets_the_space_by_the_counter() {
    assert_eq!(at(".", 0), (" ".to_string(), 0));
    assert_eq!(at(".", 1), ("!".to_string(), 0));
    assert_eq!(at(".", 65), ("a".to_string(), 64));
    assert_eq!(at("..", 5), ("$%".to_string(), 3));
}

#[test]
fn dot_wraps_around_the_domain() {
    let last = 1_112_064u64 - 1 - 32;
    assert_eq!(at(".", last), ("\u{10FFFF}".to_string(), last - 1));
    assert_eq!(at(".", last + 1), ("\u{0}".to_string(), last));
    assert_eq!(at(".", 0xD800 - 32), ("\u{E000}".to_string(), 0xD800 - 33));
    let (text, left) = at(".", u64::MAX);
    assert_eq!(text.chars().count(), 1);
    assert_eq!(left, u64::MAX - 1);
}

#[test]
fn negated_class_skips_what_it_excludes() {
    for index in 0..95u64 {
        let (text, left) = at("[^a]", index);
        assert_ne!(text, "a");
        assert_eq!(left, index.saturating_sub(1));
        let plain = char::from_u32(index as u32 + 32).unwrap();
        if plain != 'a' {
            assert_eq!(text, plain.to_string());
        }
    }
    assert_eq!(at("[^a]", 65), ("b".to_string(), 64));
    assert_eq!(at("[^ -~]", 0), ("\u{7F}".to_string(), 0));
}

#[test]
fn groups_share_the_counter() {
    assert_eq!(at("([ab][0-9])", 13), ("b3".to_string(), 0));
    assert_eq!(at("x([0-9]{2})y", 42), ("x42y".to_string(), 0));
    assert_eq!(at("([0-9]){2}", 42), ("42".to_string(), 0));
    assert_eq!(at("([ab][0-9]){2}", 213), ("b0b3".to_string(), 0));
    assert_eq!(at("([ab][0-9]){2}", 13), ("a0b3".to_string(), 0));
}

#[test]
fn open_counts_change_the_length_only() {
    for pattern in ["[0-9]+", "[0-9]*", "[0-9]{2,}", "[0-9]?", "[0-9]{1,6}"] {
        let tree = parse_regex(pattern).unwrap();
        let (low, high) = tree[0].quantifier.window();
        for index in [0u64, 5, 98765] {
            for _ in 0..50 {
                let mut i = index;
                let text = generate_inc(&tree, &mut i).unwrap();
                let n = text.len();
                assert!(low as usize <= n && n <= high as usize, "{} gave {:?}", pattern, text);
                let digits = format!("{:0>12}", index);
                assert_eq!(text, &digits[12 - n..]);
            }
        }
    }
}

#[test]
fn counts_come_from_the_sampler() {
    let tree = parse_regex("[0-9]{1,6}").unwrap();
    let mut i = 123456u64;
    assert_eq!(generate_inc_with(&tree, &mut i, &mut Fixed(4)), Ok("3456".to_string()));
    assert_eq!(i, 12);
    let mut i = 123456u64;
    assert_eq!(generate_inc_with(&tree, &mut i, &mut Fixed(0)), Ok("6".to_string()));
    assert_eq!(i, 12345);
    let mut i = 123456u64;
    assert_eq!(generate_inc_with(&tree, &mut i, &mut Fixed(77)), Ok("123456".to_string()));
    assert_eq!(i, 0);
}

#[test]
fn node_generate_inc() {
    let list = List::new(false).with_range('a', 'e');
    let node = Regex { symbol: RegexSymbol::List(list), quantifier: Quantifier::exactly(2) };
    let mut i = 7u64;
    assert_eq!(node.generate_inc(&mut i), Ok("bc".to_string()));
    assert_eq!(i, 0);
    let mut i = 7u64;
    assert_eq!(node.generate_inc_with(&mut i, &mut Fixed(0)), Ok("bc".to_string()));
    assert_eq!(i, 0);
}

#[test]
fn list_generate_inc() {
    let list = List::new(false).with_range('a', 'e');
    let mut i = 13u64;
    assert_eq!(list.generate_inc(&mut i), Ok('d'));
    assert_eq!(i, 2);
    assert_eq!(list.generate_inc(&mut i), Ok('c'));
    assert_eq!(i, 0);
    assert_eq!(list.generate_inc(&mut i), Ok('a'));
    assert_eq!(i, 0);
    let negated = List::new(true).with_range(' ', '/');
    let mut i = 3u64;
    assert_eq!(negated.generate_inc(&mut i), Ok('0'));
    assert_eq!(i, 2);
    let mut i = 0u64;
    assert_eq!(negated.generate_inc(&mut i), Ok('0'));
    assert_eq!(i, 0);
}

#[test]
fn exhausted_class_fails_and_keeps_the_counter() {
    let empty = List::new(false);
    let mut i = 9u64;
    assert_eq!(empty.generate_inc(&mut i), Err(GenerationError::ExhaustedClass));
    assert_eq!(i, 9);
    let full = List::new(true).with_range('\u{0}', '\u{10FFFF}');
    assert_eq!(full.generate_inc(&mut i), Err(GenerationError::ExhaustedClass));
    assert_eq!(i, 9);
    let tree = vec![
        Regex::new(RegexSymbol::Literal('a')),
        Regex::new(RegexSymbol::List(List::new(false))),
    ];
    assert_eq!(generate_inc(&tree, &mut i), Err(GenerationError::ExhaustedClass));
}

#[test]
fn empty_pattern_enumerates_the_empty_string() {
    assert_eq!(at("", 5), (String::new(), 5));
    assert_eq!(at("()", 5), (String::new(), 5));
    assert_eq!(at("a{0}", 5), (String::new(), 5));
}

#[test]
fn consume_takes_the_lowest_digit() {
    let mut index = 4321u64;
    assert_eq!(consume(&mut index, 10), 1);
    assert_eq!(index, 432);
    assert_eq!(consume(&mut index, 7), 5);
    assert_eq!(index, 61);
    assert_eq!(consume(&mut index, 100), 61);
    assert_eq!(index, 0);
    assert_eq!(consume(&mut index, 3), 0);
    assert_eq!(index, 0);
    let mut index = u64::MAX;
    assert_eq!(consume(&mut index, 1), 0);
    assert_eq!(index, u64::MAX);
    assert_eq!(consume(&mut index, u64::MAX), 0);
    assert_eq!(index, 1);
}

#[test]
fn counters_below_the_radix_give_distinct_strings() {
    let pattern = "([ab]{2}-)x[0-3]";
    let radix = 2 * 2 * 4u64;
    let mut seen = std::collections::BTreeSet::new();
    for index in 0..radix {
        let (text, left) = at(pattern, index);
        assert_eq!(left, 0);
        assert_eq!(text.len(), 5);
        assert!(seen.insert(text));
    }
    assert_eq!(seen.len(), radix as usize);
    for index in [radix, radix + 5, 7 * radix + 3] {
        assert_eq!(at(pattern, index), (at(pattern, index % radix).0, index / radix));
    }
    assert_eq!(at(pattern, 0).0, "aa-x0");
    assert_eq!(at(pattern, 1).0, "aa-x1");
    assert_eq!(at(pattern, 4).0, "ab-x0");
    assert_eq!(at(pattern, 15).0, "bb-x3");
}
