use dicepool::grammar::scan;
use dicepool::{DiceError, Dicepool, DicepoolParseError};
use regex::Regex;

fn pattern() -> Regex {
    Regex::new(r"^(?P<count>[0-9]+?)?d(?P<sides>[0-9]+)(?P<mod>[+\-][0-9]+)?$").unwrap()
}

fn texts(alphabet: &[char], longest: usize) -> Vec<String> {
    let mut all = vec![String::new()];
    let mut last = vec![String::new()];
    for _ in 0..longest {
        let mut next = Vec::new();
        for text in &last {
            for &c in alphabet {
                let mut longer = text.clone();
                longer.push(c);
                next.push(longer);
            }
        }
        all.extend(next.iter().cloned());
        last = next;
    }
    all
}

#[test]
fn scan_finds_the_two_marks() {
    assert_eq!(scan("3d6"), Some((1, 3)));
    assert_eq!(scan("d6"), Some((0, 2)));
    assert_eq!(scan("12d100+37"), Some((2, 6)));
    assert_eq!(scan("d8-1"), Some((0, 2)));
    assert_eq!(scan("3d6+"), None);
    assert_eq!(scan("3d"), None);
    assert_eq!(scan(""), None);
    assert_eq!(scan("3d6\u{e9}"), None);
}

#[test]
fn format_agrees_with_the_regular_expression() {
    let pattern = pattern();
    let mut matched = 0;
    for text in texts(&['0', '7', 'd', '+', '-', 'x'], 6) {
        let refused = matches!(
            Dicepool::from_description(&text),
            Err(DiceError::ParseError(DicepoolParseError::InvalidFormat))
        );
        assert_eq!(pattern.is_match(&text), !refused, "{:?}", text);
        if !refused {
            matched += 1;
        }
    }
    assert!(matched > 100);
}

#[test]
fn parts_agree_with_the_regular_expression() {
    let pattern = pattern();
    for text in texts(&['1', '9', 'd', '+', '-'], 7) {
        let Some(caps) = pattern.captures(&text) else {
            continue;
        };
        let pool = Dicepool::from_description(&text).unwrap();
        let count = caps.name("count").map_or(1, |m| m.as_str().parse::<u32>().unwrap());
        let sides = caps["sides"].parse::<u32>().unwrap();
        let modifier = caps.name("mod").map_or(0, |m| m.as_str().parse::<i32>().unwrap());
        assert_eq!((pool.count(), pool.sides(), pool.modifier()), (count, sides, modifier), "{:?}", text);
    }
}

#[test]
fn overflow_agrees_with_the_integer_parsers() {
    for digits in ["0", "1", "2147483647", "2147483648", "2147483649", "4294967295", "4294967296", "18446744073709551615", "18446744073709551616", "000000000000000000000000000005"] {
        let as_count = Dicepool::from_description(&format!("{}d6", digits));
        match digits.parse::<u32>() {
            Ok(n) => assert_eq!(as_count.unwrap().count(), n),
            Err(_) => assert_eq!(as_count, Err(DiceError::ParseError(DicepoolParseError::InvalidCount))),
        }
        let as_sides = Dicepool::from_description(&format!("2d{}", digits));
        match digits.parse::<u32>() {
            Ok(n) if n > 0 => assert_eq!(as_sides.unwrap().sides(), n),
            _ => assert_eq!(as_sides, Err(DiceError::ParseError(DicepoolParseError::InvalidSides))),
        }
        for sign in ["+", "-"] {
            let as_modifier = Dicepool::from_description(&format!("2d6{}{}", sign, digits));
            match format!("{}{}", sign, digits).parse::<i32>() {
                Ok(n) => assert_eq!(as_modifier.unwrap().modifier(), n),
                Err(_) => assert_eq!(as_modifier, Err(DiceError::ParseError(DicepoolParseError::InvalidModifier))),
            }
        }
    }
}
