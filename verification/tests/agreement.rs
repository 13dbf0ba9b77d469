use courier::gpg::{first_line, parse_colons_fprs};
use courier::text::{field_span, lex_order, trim_span, Order};

/// A small generator of repeatable pseudo-random numbers.
struct Dice(u64);

impl Dice {
    fn roll(&mut self, sides: usize) -> usize {
        self.0 = self.0.wrapping_mul(6364136223846793005).wrapping_add(1442695040888963407);
        ((self.0 >> 33) as usize) % sides
    }

    fn text(&mut self, alphabet: &[&str], longest: usize) -> String {
        let len = self.roll(longest + 1);
        let mut s = String::new();
        for _ in 0..len {
            s.push_str(alphabet[self.roll(alphabet.len())]);
        }
        s
    }
}

fn by_the_book(colons: &str) -> Vec<String> {
    let mut res = Vec::new();
    for line in colons.lines() {
        if line.starts_with("fpr:") {
            let parts: Vec<&str> = line.split(':').collect();
            if parts.len() > 9 {
                let fpr = parts[9].trim();
                if !fpr.is_empty() {
                    res.push(fpr.to_string())
                }
            }
        }
    }
    res.sort();
    res.dedup();
    res
}

#[test]
fn random_listings_are_read_as_the_standard_library_reads_them() {
    let alphabet = [
        "fpr:", "fpr:::::::::", "fpr::::::::", ":", ":", "\n", "\n", "\r\n", "\r", " ", "\t",
        "\u{a0}", "A", "B", "a", "\u{e9}", "\u{1f600}", "uid:", "f", "p", "r",
    ];
    let mut dice = Dice(7);
    let mut with_fingerprints = 0;
    for _ in 0..4000 {
        let listing = dice.text(&alphabet, 24);
        let got = parse_colons_fprs(&listing);
        if !got.is_empty() {
            with_fingerprints += 1;
        }
        assert_eq!(got, by_the_book(&listing), "listing {:?}", listing);
    }
    assert!(with_fingerprints > 100);
}

#[test]
fn random_first_lines_agree() {
    let alphabet = ["\n", "\r\n", "\r", "a", "b", " ", "\u{e9}"];
    let mut dice = Dice(11);
    for _ in 0..4000 {
        let text = dice.text(&alphabet, 8);
        assert_eq!(first_line(&text), text.lines().next().unwrap_or(""), "text {:?}", text);
    }
}

#[test]
fn random_trims_agree() {
    let alphabet = [" ", "\t", "\n", "\u{a0}", "\u{3000}", "\u{200b}", "a", ":"];
    let mut dice = Dice(13);
    for _ in 0..4000 {
        let text = dice.text(&alphabet, 8);
        let chars: Vec<char> = text.chars().collect();
        let (a, b) = trim_span(&chars);
        let cut: String = chars[a..b].iter().collect();
        assert_eq!(cut, text.trim(), "text {:?}", text);
    }
}

#[test]
fn random_fields_agree() {
    let alphabet = [":", ":", "a", "b", "\u{e9}"];
    let mut dice = Dice(17);
    for _ in 0..2000 {
        let text = dice.text(&alphabet, 10);
        let chars: Vec<char> = text.chars().collect();
        let pieces: Vec<&str> = text.split(':').collect();
        let mut start = 0;
        for n in 0..pieces.len() + 1 {
            let got = field_span(&chars, ':', n);
            match pieces.get(n) {
                Some(piece) => {
                    let len = piece.chars().count();
                    assert_eq!(got, Some((start, start + len)), "piece {} of {:?}", n, text);
                    start += len + 1;
                }
                None => assert_eq!(got, None, "piece {} of {:?}", n, text),
            }
        }
    }
}

#[test]
fn random_orders_agree() {
    let alphabet = ["a", "b", "B", "\u{e9}", "\u{ffee}", "\u{1f600}", "0"];
    let mut dice = Dice(19);
    for _ in 0..4000 {
        let a = dice.text(&alphabet, 5);
        let b = dice.text(&alphabet, 5);
        let want = if a < b {
            Order::Less
        } else if a == b {
            Order::Equal
        } else {
            Order::Greater
        };
        let ac: Vec<char> = a.chars().collect();
        let bc: Vec<char> = b.chars().collect();
        assert_eq!(lex_order(&ac, &bc), want, "{:?} and {:?}", a, b);
    }
}
