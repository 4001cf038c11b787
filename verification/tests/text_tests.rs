use game_of_life::text::{
    chars_of, decimal_len, push_decimal, push_padded_decimal, spells_one, split_at, trimmed,
    whitespace,
};

fn chars(s: &str) -> Vec<char> {
    s.chars().collect()
}

fn text(v: &Vec<char>) -> String {
    v.iter().collect()
}

#[test]
fn white_space_is_what_the_language_calls_white_space() {
    let mut count = 0;
    for code in 0..=0x10ffffu32 {
        if let Some(c) = char::from_u32(code) {
            assert_eq!(whitespace(c), c.is_whitespace(), "code {:x}", code);
            if whitespace(c) {
                count += 1;
            }
        }
    }
    assert_eq!(count, 25);
}

#[test]
fn chars_of_gives_every_character() {
    assert_eq!(chars_of(""), chars(""));
    assert_eq!(chars_of("0,1\n"), vec!['0', ',', '1', '\n']);
    assert_eq!(chars_of("a\u{3000}é"), vec!['a', '\u{3000}', 'é']);
}

#[test]
fn trimming_agrees_with_the_language() {
    let samples = [
        "",
        " ",
        "a",
        "  a b  ",
        "\n\t1,0\r\n",
        "\u{a0}x\u{2003}",
        "\u{3000}\u{85}",
        "0,1\n1,0\n",
        " \u{feff} ",
    ];
    for s in samples.iter() {
        assert_eq!(text(&trimmed(&chars(s))), s.trim());
    }
    assert_eq!(text(&trimmed(&chars("  a b  "))), "a b");
}

#[test]
fn splitting_agrees_with_the_language() {
    let samples = ["", ",", "a", "a,b", "a,,b", ",a,", "0,1,0", "1,0,1,", ",,"];
    for s in samples.iter() {
        let ours: Vec<String> = split_at(&chars(s), ',').iter().map(text).collect();
        let theirs: Vec<String> = s.split(',').map(|p| p.to_string()).collect();
        assert_eq!(ours, theirs);
    }
    let pieces: Vec<String> = split_at(&chars("a,,b"), ',').iter().map(text).collect();
    assert_eq!(pieces, vec!["a", "", "b"]);
    let lines: Vec<String> = split_at(&chars("x\ny"), '\n').iter().map(text).collect();
    assert_eq!(lines, vec!["x", "y"]);
}

#[test]
fn tokens_that_spell_one() {
    for t in ["1", "01", "0001", "+1", "+01"].iter() {
        assert!(spells_one(&chars(t)), "{}", t);
    }
}

#[test]
fn tokens_that_do_not_spell_one() {
    for t in [
        "", "+", "0", "00", "2", "9", "10", "11", "21", "101", " 1", "1 ", "-1", "1a", "a1", "++1",
        "1+", "1.0", "one", "256", "１",
    ]
    .iter()
    {
        assert!(!spells_one(&chars(t)), "{}", t);
    }
}

#[test]
fn spelling_one_agrees_with_parsing_a_byte() {
    for t in ["1", "01", "+1", "0", "2", "", "+", "-1", "300", "1 ", "001", "+001", "255"].iter() {
        let parsed: u8 = t.parse().unwrap_or(0);
        assert_eq!(spells_one(&chars(t)), parsed == 1, "{}", t);
    }
}

#[test]
fn decimal_is_written_without_leading_zeros() {
    for n in [0u128, 7, 9, 10, 11, 99, 100, 12345, 4294967296, u128::MAX].iter() {
        let mut s = String::from("x=");
        push_decimal(&mut s, *n);
        assert_eq!(s, format!("x={}", n));
        assert_eq!(decimal_len(*n), format!("{}", n).len());
    }
}

#[test]
fn padded_decimal_fills_with_zeros() {
    let mut s = String::new();
    push_padded_decimal(&mut s, 12, 8);
    assert_eq!(s, "00000012");
    for (n, w) in [(0u128, 8usize), (7, 1), (7, 0), (123456789, 8), (99999999, 8), (5, 3)].iter() {
        let mut s = String::from("n");
        push_padded_decimal(&mut s, *n, *w);
        assert_eq!(s, format!("n{:0width$}", n, width = *w));
    }
}
