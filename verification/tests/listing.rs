use courier::gpg::parse_colons_fprs;
use courier::listing::fingerprint_span;

/// The same reading written with the standard library's own text functions.
fn by_the_book(colons: &str) -> Vec<String> {
    let mut res = Vec::new();
    for line in colons.lines() {
        if line.starts_with("fpr:") {
            let parts: Vec<&str> = line.split(':').collect();
            if parts.len() > 9 {
                let fpr = parts[9].trim();
                if !fpr.is_empty() {
                    res.push(fpr.to_string())
                }
            }
        }
    }
    res.sort();
    res.dedup();
    res
}

fn span_text(line: &str) -> Option<String> {
    let chars: Vec<char> = line.chars().collect();
    fingerprint_span(&chars).map(|(a, b)| chars[a..b].iter().collect())
}

#[test]
fn duplicate_records_yield_one_fingerprint() {
    let listing = "fpr:::::::::AAA1:\nfpr:::::::::AAA1:\nuid:::::::::irrelevant:\n";
    assert_eq!(parse_colons_fprs(listing), vec!["AAA1".to_string()]);
}

#[test]
fn duplicate_records_without_final_newline() {
    let listing = "fpr:::::::::AAA1:\nfpr:::::::::AAA1:\nuid:::::::::irrelevant:";
    assert_eq!(parse_colons_fprs(listing), vec!["AAA1".to_string()]);
}

#[test]
fn distinct_values_come_sorted_and_once() {
    let listing = "fpr:::::::::CCC3:\n\
                   fpr:::::::::AAA1:\n\
                   fpr:::::::::BBB2:\n\
                   fpr:::::::::CCC3:\n\
                   fpr:::::::::AAA1:\n";
    assert_eq!(
        parse_colons_fprs(listing),
        vec!["AAA1".to_string(), "BBB2".to_string(), "CCC3".to_string()]
    );
}

#[test]
fn real_listing_is_read() {
    let listing = "sec:u:255:22:0123456789ABCDEF:1700000000:::u:::scESC:::+::ed25519:::0:\n\
                   fpr:::::::::9F8E7D6C5B4A39281706F5E4D3C2B1A00123ABCD:\n\
                   grp:::::::::1111111111111111111111111111111111111111:\n\
                   uid:u::::1700000000::AAAA::Someone <someone@example.org>::::::::::0:\n\
                   ssb:u:255:18:FEDCBA9876543210:1700000000::::::e:::+::cv25519::\n\
                   fpr:::::::::0A1B2C3D4E5F60718293A4B5C6D7E8F901234567:\n\
                   grp:::::::::2222222222222222222222222222222222222222:\n";
    assert_eq!(
        parse_colons_fprs(listing),
        vec![
            "0A1B2C3D4E5F60718293A4B5C6D7E8F901234567".to_string(),
            "9F8E7D6C5B4A39281706F5E4D3C2B1A00123ABCD".to_string(),
        ]
    );
}

#[test]
fn record_with_nine_fields_yields_nothing() {
    // Eight colons: nine fields, the last of them "AAA1".
    assert_eq!(parse_colons_fprs("fpr::::::::AAA1\n"), Vec::<String>::new());
    assert_eq!(span_text("fpr::::::::AAA1"), None);
}

#[test]
fn record_with_marker_alone_yields_nothing() {
    assert_eq!(parse_colons_fprs("fpr:\n"), Vec::<String>::new());
    assert_eq!(parse_colons_fprs("fpr:AAA1\n"), Vec::<String>::new());
}

#[test]
fn record_with_exactly_ten_fields_yields_its_last() {
    assert_eq!(parse_colons_fprs("fpr:::::::::AAA1\n"), vec!["AAA1".to_string()]);
    assert_eq!(span_text("fpr:::::::::AAA1"), Some("AAA1".to_string()));
}

#[test]
fn record_with_empty_tenth_field_yields_nothing() {
    assert_eq!(parse_colons_fprs("fpr::::::::::\n"), Vec::<String>::new());
    assert_eq!(parse_colons_fprs("fpr:::::::::\n"), Vec::<String>::new());
    assert_eq!(parse_colons_fprs("fpr::::::::::AAA1:\n"), Vec::<String>::new());
    assert_eq!(span_text("fpr::::::::::AAA1:"), None);
}

#[test]
fn record_with_blank_tenth_field_yields_nothing() {
    assert_eq!(parse_colons_fprs("fpr:::::::::   :\n"), Vec::<String>::new());
    assert_eq!(parse_colons_fprs("fpr::::::::: \t\u{a0}\u{3000}:\n"), Vec::<String>::new());
}

#[test]
fn fingerprint_is_trimmed() {
    assert_eq!(parse_colons_fprs("fpr:::::::::  AB12\t:\n"), vec!["AB12".to_string()]);
    assert_eq!(parse_colons_fprs("fpr:::::::::\u{2003}AB 12\u{85}:\n"), vec!["AB 12".to_string()]);
    assert_eq!(span_text("fpr:::::::::  AB12\t:"), Some("AB12".to_string()));
}

#[test]
fn span_is_given_in_positions_of_the_line() {
    let chars: Vec<char> = "fpr::::::::: AB12 :x".chars().collect();
    assert_eq!(fingerprint_span(&chars), Some((13, 17)));
}

#[test]
fn characters_that_are_no_white_space_stay() {
    // A zero-width space and a byte-order mark are not white space.
    assert_eq!(
        parse_colons_fprs("fpr:::::::::\u{200b}AB12\u{feff}:\n"),
        vec!["\u{200b}AB12\u{feff}".to_string()]
    );
}

#[test]
fn carriage_returns_before_newlines_are_ignored() {
    let listing = "fpr:::::::::BBB2:\r\nfpr:::::::::AAA1\r\nuid:::::::::x:\r\n";
    assert_eq!(parse_colons_fprs(listing), vec!["AAA1".to_string(), "BBB2".to_string()]);
}

#[test]
fn other_kinds_of_record_yield_nothing() {
    let listing = "uid:::::::::AAA1:\n\
                   pub:::::::::BBB2:\n\
                   fp:::::::::CCC3:\n\
                   fprx:::::::::DDD4:\n\
                   \x20fpr:::::::::EEE5:\n\
                   FPR:::::::::FFF6:\n\
                   :fpr:::::::::GGG7:\n";
    assert_eq!(parse_colons_fprs(listing), Vec::<String>::new());
}

#[test]
fn fields_after_the_tenth_are_ignored() {
    assert_eq!(
        parse_colons_fprs("fpr:1:2:3:4:5:6:7:8:AAA1:10:11:12\n"),
        vec!["AAA1".to_string()]
    );
}

#[test]
fn empty_listing_yields_nothing() {
    assert_eq!(parse_colons_fprs(""), Vec::<String>::new());
    assert_eq!(parse_colons_fprs("\n\n\n"), Vec::<String>::new());
}

#[test]
fn order_is_by_code_point() {
    let listing = "fpr:::::::::b:\n\
                   fpr:::::::::B:\n\
                   fpr:::::::::a:\n\
                   fpr:::::::::ab:\n\
                   fpr:::::::::\u{e9}:\n\
                   fpr:::::::::z:\n\
                   fpr:::::::::\u{1f600}:\n\
                   fpr:::::::::\u{ffee}:\n\
                   fpr:::::::::10:\n\
                   fpr:::::::::9:\n";
    assert_eq!(
        parse_colons_fprs(listing),
        vec![
            "10".to_string(),
            "9".to_string(),
            "B".to_string(),
            "a".to_string(),
            "ab".to_string(),
            "b".to_string(),
            "z".to_string(),
            "\u{e9}".to_string(),
            "\u{ffee}".to_string(),
            "\u{1f600}".to_string(),
        ]
    );
}

#[test]
fn agrees_with_the_standard_library() {
    let listings = [
        "",
        "\n",
        "fpr",
        "fpr:",
        "fpr:\r",
        "fpr:::::::::A",
        "fpr:::::::::A\r",
        "fpr:::::::::A\r\n",
        "fpr:::::::::A\r\r\n",
        "fpr:::::::::A:\r\n",
        "fpr:::::::::\r\n",
        "fpr:::::::::\r",
        "fpr::::::::\rA:\r\n",
        "fpr:::::::::A B:\nfpr:::::::::A:\nfpr:::::::::A B :\n",
        "fpr:::::::::\u{1c}A\u{1f}:\n",
        "fpr:::::::::\u{b}A\u{c}:\n",
        "fpr:::::::::\u{180e}A\u{2028}:\n",
        "fpr:::::::::\u{1680}\u{2000}\u{200a}\u{2029}\u{202f}\u{205f}Z:\n",
        "fpr:::::::::b\nfpr:::::::::a\nfpr:::::::::c\nfpr:::::::::a\nfpr:::::::::b",
        "x\nfpr:::::::::k:\ny\n\nfpr:::::::::j:z:\n:",
        "fpr:::::::::\u{10ffff}\nfpr:::::::::\u{ffff}\nfpr:::::::::\u{d7ff}\nfpr:::::::::\u{e000}",
        "fpr:a:b:c:d:e:f:g:h: i :j\nfpr:a:b:c:d:e:f:g:h:i\nfpr:a:b:c:d:e:f:g:h",
    ];
    for listing in listings {
        assert_eq!(parse_colons_fprs(listing), by_the_book(listing), "listing {:?}", listing);
    }
}
