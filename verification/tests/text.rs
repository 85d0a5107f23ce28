use linked_graph::prompt::confirms;
use linked_graph::record::{EdgeRecord, GraphNode};
use linked_graph::text::{chars_of, is_whitespace, parse_i32, split_fields, trim};

#[test]
fn trim_takes_white_space_off_both_ends() {
    assert_eq!(trim("  a b \t\r\n"), "a b");
    assert_eq!(trim("a"), "a");
    assert_eq!(trim(""), "");
    assert_eq!(trim(" \n "), "");
    assert_eq!(trim("\u{3000}x\u{a0}"), "x");
    assert_eq!(trim("\u{200b}x"), "\u{200b}x");
}

#[test]
fn trim_agrees_with_std() {
    for code in 0..0x3100u32 {
        if let Some(c) = char::from_u32(code) {
            assert_eq!(is_whitespace(c), c.is_whitespace(), "{:x}", code);
            let text = format!("{}a{}", c, c);
            assert_eq!(trim(&text), text.trim());
        }
    }
}

#[test]
fn chars_are_read_in_order() {
    assert_eq!(chars_of("aé→"), vec!['a', 'é', '→']);
    assert_eq!(chars_of(""), Vec::<char>::new());
}

#[test]
fn split_cuts_at_every_separator() {
    assert_eq!(split_fields("a,b,c", ','), vec!["a", "b", "c"]);
    assert_eq!(split_fields("abc", ','), vec!["abc"]);
    assert_eq!(split_fields("", ','), vec![""]);
    assert_eq!(split_fields(",", ','), vec!["", ""]);
    assert_eq!(split_fields("a,,b,", ','), vec!["a", "", "b", ""]);
    assert_eq!(split_fields("é,→", ','), vec!["é", "→"]);
}

#[test]
fn split_agrees_with_std() {
    for text in ["", ",", ",,", "a", "a,", ",a", "ab,cd,,ef", " a , b "] {
        let expected: Vec<String> = text.split(',').map(|field| field.to_string()).collect();
        assert_eq!(split_fields(text, ','), expected);
    }
}

#[test]
fn integers_are_read() {
    assert_eq!(parse_i32("0"), Some(0));
    assert_eq!(parse_i32("10"), Some(10));
    assert_eq!(parse_i32("+10"), Some(10));
    assert_eq!(parse_i32("-10"), Some(-10));
    assert_eq!(parse_i32("-0"), Some(0));
    assert_eq!(parse_i32("007"), Some(7));
    assert_eq!(parse_i32("2147483647"), Some(2147483647));
    assert_eq!(parse_i32("-2147483648"), Some(-2147483648));
    assert_eq!(parse_i32("00000000000000000000000000000012"), Some(12));
}

#[test]
fn what_is_no_integer_is_not_read() {
    assert_eq!(parse_i32(""), None);
    assert_eq!(parse_i32("+"), None);
    assert_eq!(parse_i32("-"), None);
    assert_eq!(parse_i32("+-1"), None);
    assert_eq!(parse_i32(" 1"), None);
    assert_eq!(parse_i32("1 "), None);
    assert_eq!(parse_i32("1.0"), None);
    assert_eq!(parse_i32("1_000"), None);
    assert_eq!(parse_i32("x"), None);
    assert_eq!(parse_i32("１"), None);
    assert_eq!(parse_i32("2147483648"), None);
    assert_eq!(parse_i32("-2147483649"), None);
    assert_eq!(parse_i32("99999999999999999999999999"), None);
}

#[test]
fn integers_agree_with_std() {
    for text in [
        "", "+", "-", "0", "-0", "+0", "12", "-12", "+12", "1a", "a1", "2147483647",
        "2147483648", "-2147483648", "-2147483649", "0000000000000000000001", "--1", "1-",
    ] {
        assert_eq!(parse_i32(text), text.parse::<i32>().ok(), "{:?}", text);
    }
}

#[test]
fn node_record_is_two_fields() {
    let node = GraphNode::parse(" N1,Ned\n").unwrap();
    assert_eq!(node.id(), "N1");
    assert_eq!(node.name(), "Ned");
    assert!(GraphNode::parse("N1").is_none());
    assert!(GraphNode::parse("").is_none());
    let bare = GraphNode::parse(",").unwrap();
    assert_eq!(bare.id(), "");
    assert_eq!(bare.name(), "");
}

#[test]
fn edge_record_is_three_fields() {
    let record = EdgeRecord::parse("N1,N2,10\n").unwrap();
    assert_eq!(record.from(), "N1");
    assert_eq!(record.to(), "N2");
    assert_eq!(record.weight(), Some(10));
    assert_eq!(EdgeRecord::parse("N1,N2,ten").unwrap().weight(), None);
    assert!(EdgeRecord::parse("N1,N2").is_none());
}

#[test]
fn only_the_token_confirms() {
    assert!(confirms("Y"));
    assert!(!confirms("y"));
    assert!(!confirms("Yes"));
    assert!(!confirms(" Y"));
    assert!(!confirms(""));
    assert!(!confirms("n"));
}
