use regex::Regex;
use story_shuffler::section_list::parse_section_list;

fn texts_over(alphabet: &[char], up_to: usize) -> Vec<String> {
    let mut all = vec![String::new()];
    let mut last = vec![String::new()];
    for _ in 0..up_to {
        let mut next = Vec::new();
        for text in &last {
            for c in alphabet {
                let mut longer = text.clone();
                longer.push(*c);
                next.push(longer);
            }
        }
        all.extend(next.iter().cloned());
        last = next;
    }
    all
}

fn expected(text: &str) -> Vec<usize> {
    text.split(',').map(|s| s.trim().parse::<usize>().unwrap_or_default()).filter(|n| *n != 0).collect()
}

#[test]
fn well_formed_lists_are_those_of_the_pattern() {
    let pattern = Regex::new(r"^(?:\s*\d+\s*(?:,\s*\d+\s*)*)?$").unwrap();
    for text in texts_over(&['0', '7', ',', ' ', '\n', 'x', '\u{2009}'], 5) {
        let parsed = parse_section_list(&text);
        assert_eq!(parsed.is_some(), pattern.is_match(&text));
        if let Some(listed) = parsed {
            assert_eq!(listed, expected(&text));
        }
    }
}

#[test]
fn long_lists_are_read_as_the_standard_library_reads_them() {
    for text in [
        "1,2,3,4,5,6,7,8,9,10,11,12",
        " 18446744073709551615 , 18446744073709551616 ,0018446744073709551615",
        "4294967295,4294967296, 65535 ,65536",
        "\t1\t,\r\n2\r\n",
    ] {
        assert_eq!(parse_section_list(text), Some(expected(text)));
    }
}
