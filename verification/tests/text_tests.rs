use llm_wiki_server::text::{chars_of, concat3, decimal_string, string_of, trim_chars};

fn listed_white_space(c: char) -> bool {
    let u = c as u32;
    (0x09..=0x0d).contains(&u)
        || u == 0x20
        || u == 0x85
        || u == 0xa0
        || u == 0x1680
        || (0x2000..=0x200a).contains(&u)
        || u == 0x2028
        || u == 0x2029
        || u == 0x202f
        || u == 0x205f
        || u == 0x3000
}

#[test]
fn white_space_set_is_the_std_one() {
    for u in 0u32..=0x10ffff {
        if let Some(c) = char::from_u32(u) {
            assert_eq!(c.is_whitespace(), listed_white_space(c), "U+{:04X}", u);
        }
    }
}

#[test]
fn ascii_alphanumerics_are_letters_and_digits() {
    for u in 0u32..128 {
        let c = char::from_u32(u).unwrap();
        assert_eq!(c.is_alphanumeric(), c.is_ascii_alphanumeric(), "{:?}", c);
    }
}

#[test]
fn ascii_lowercase_maps_letters_only() {
    let all: String = (0u8..128).map(|b| b as char).collect();
    assert_eq!(all.to_lowercase(), all.to_ascii_lowercase());
}

#[test]
fn trimming_matches_std() {
    for s in ["", "   ", " a ", "\u{3000}x\u{2029}", "a b", "\tq\n", "x\u{200b}"] {
        let v = chars_of(s);
        assert_eq!(string_of(&trim_chars(&v)), s.trim(), "{:?}", s);
    }
}

#[test]
fn decimal_strings() {
    for n in [0u64, 7, 10, 99, 100, 4294967295, u64::MAX] {
        assert_eq!(decimal_string(n), n.to_string());
    }
}

#[test]
fn concatenation() {
    assert_eq!(concat3("a", "", "ç"), "aç");
}
