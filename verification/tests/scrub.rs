use response_cache::scrub_nondeterministic_content;

#[test]
fn test_scrub_nondeterministic_content() {
    // Daily date in system prompt
    let input = r#"the current date is Wednesday, June 02, 2026. Do something."#;
    let scrubbed = scrub_nondeterministic_content(input);
    assert_eq!(scrubbed, "the current date is <DATE>. Do something.");

    // Different day produces the same scrubbed output
    let input2 = r#"the current date is Thursday, June 03, 2026. Do something."#;
    assert_eq!(scrub_nondeterministic_content(input2), scrubbed);

    // Commit hash from git show
    let input = "commit a1b2c3d4e5f6a1b2c3d4e5f6a1b2c3d4e5f6a1b2\nAuthor: Joe";
    let scrubbed = scrub_nondeterministic_content(input);
    assert!(scrubbed.starts_with("commit <HASH>"));

    // Date line from git show (committer date)
    let input = "Date:   Mon Jun 1 10:30:00 2026 -0300\n\n    msg";
    let scrubbed = scrub_nondeterministic_content(input);
    assert!(scrubbed.starts_with("Date: <DATE>"));

    // Same patch content with different dates/hashes produces identical output
    let v1 = "the current date is Monday, June 01, 2026\\ncommit aaaaaaaaaaaaaaaaaaaaaaaaaaaaaaaaaaaaaaaa\\nDate:   Mon Jun 1 10:00:00 2026 -0300\\nsome diff";
    let v2 = "the current date is Tuesday, June 02, 2026\\ncommit bbbbbbbbbbbbbbbbbbbbbbbbbbbbbbbbbbbbbbbb\\nDate:   Tue Jun 2 11:00:00 2026 -0300\\nsome diff";
    assert_eq!(
        scrub_nondeterministic_content(v1),
        scrub_nondeterministic_content(v2)
    );
}

#[test]
fn plain_text_is_left_alone() {
    assert_eq!(scrub_nondeterministic_content(""), "");
    let text = "the current date is unknown; commit early, Date:soon";
    assert_eq!(scrub_nondeterministic_content(text), text);
}

#[test]
fn a_date_line_ends_at_a_backslash_a_quote_or_a_line_feed() {
    assert_eq!(
        scrub_nondeterministic_content("{\"a\":\"Date: Mon\",\"b\":0.5}"),
        "{\"a\":\"Date: <DATE>\",\"b\":0.5}"
    );
    assert_eq!(
        scrub_nondeterministic_content("Date:   Mon\\nrest"),
        "Date: <DATE>\\nrest"
    );
    assert_eq!(
        scrub_nondeterministic_content("Date:   Mon\nrest"),
        "Date: <DATE>\nrest"
    );
    assert_eq!(scrub_nondeterministic_content("Date: Mon"), "Date: <DATE>");
}

#[test]
fn white_space_after_the_colon_may_span_lines() {
    assert_eq!(
        scrub_nondeterministic_content("Date: \n\n  Mon\nrest"),
        "Date: <DATE>\nrest"
    );
    // One space is left for the rest of the line where nothing else is.
    assert_eq!(
        scrub_nondeterministic_content("Date:  \\nrest"),
        "Date: <DATE>\\nrest"
    );
    assert_eq!(scrub_nondeterministic_content("Date: \\nrest"), "Date: \\nrest");
    assert_eq!(
        scrub_nondeterministic_content("Date:  \n\\nrest"),
        "Date: <DATE>\n\\nrest"
    );
}

#[test]
fn an_open_commit_line_takes_the_next_letter() {
    let short = "commit 123456789012345678901234567890123456789";
    let full = "commit 1234567890123456789012345678901234567890";
    let text = format!("{}{}", short, full);
    assert_eq!(
        scrub_nondeterministic_content(&text),
        "commit <HASH>ommit 1234567890123456789012345678901234567890"
    );
    // Only lower-case digits make a hash.
    let upper = "commit A1B2C3D4E5F6A1B2C3D4E5F6A1B2C3D4E5F6A1B2";
    assert_eq!(scrub_nondeterministic_content(upper), upper);
}

fn is_space(c: char) -> bool {
    c.is_whitespace()
}

fn is_digit(c: char) -> bool {
    const ZEROS: [u32; 75] = [
        0x660, 0x6F0, 0x7C0, 0x966, 0x9E6, 0xA66, 0xAE6, 0xB66, 0xBE6, 0xC66, 0xCE6, 0xD66, 0xDE6,
        0xE50, 0xED0, 0xF20, 0x1040, 0x1090, 0x17E0, 0x1810, 0x1946, 0x19D0, 0x1A80, 0x1A90,
        0x1B50, 0x1BB0, 0x1C40, 0x1C50, 0xA620, 0xA8D0, 0xA900, 0xA9D0, 0xA9F0, 0xAA50, 0xABF0,
        0xFF10, 0x104A0, 0x10D30, 0x10D40, 0x11066, 0x110F0, 0x11136, 0x111D0, 0x112F0, 0x11450,
        0x114D0, 0x11650, 0x116C0, 0x116D0, 0x116DA, 0x11730, 0x118E0, 0x11950, 0x11BF0, 0x11C50,
        0x11D50, 0x11DA0, 0x11F50, 0x16130, 0x16A60, 0x16AC0, 0x16B50, 0x16D70, 0x1CCF0, 0x1D7CE,
        0x1D7D8, 0x1D7E2, 0x1D7EC, 0x1D7F6, 0x1E140, 0x1E2F0, 0x1E4F0, 0x1E5F1, 0x1E950, 0x1FBF0,
    ];
    let u = c as u32;
    c.is_ascii_digit() || ZEROS.iter().any(|z| *z <= u && u < *z + 10)
}

fn on_line(c: char) -> bool {
    c != '\n' && c != '\\' && c != '"'
}

fn is_date_line(w: &[char]) -> bool {
    let head: Vec<char> = "Date:".chars().collect();
    if w.len() < 7 || w[..5] != head[..] {
        return false;
    }
    (1..w.len() - 5).any(|gap| {
        w[5..5 + gap].iter().all(|c| is_space(*c)) && w[5 + gap..].iter().all(|c| on_line(*c))
    })
}

fn is_commit(w: &[char]) -> bool {
    let head: Vec<char> = "commit ".chars().collect();
    w.len() == 47
        && w[..7] == head[..]
        && w[7..].iter().all(|c| matches!(*c, '0'..='9' | 'a'..='f'))
}

fn is_current_date(w: &[char]) -> bool {
    let head: Vec<char> = "the current date is ".chars().collect();
    if w.len() < 35 || w[..20] != head[..] {
        return false;
    }
    let capitalized = |s: &[char]| {
        s.len() >= 2 && s[0].is_ascii_uppercase() && s[1..].iter().all(|c| c.is_ascii_lowercase())
    };
    let n = w.len();
    // The last nine characters are fixed: " dd, dddd" without the first space.
    if !(w[n - 9] == ' '
        && is_digit(w[n - 8])
        && is_digit(w[n - 7])
        && w[n - 6] == ','
        && w[n - 5] == ' '
        && w[n - 4..].iter().all(|c| is_digit(*c)))
    {
        return false;
    }
    let words = &w[20..n - 9];
    (0..words.len()).any(|k| {
        k + 2 <= words.len()
            && words[k] == ','
            && words[k + 1] == ' '
            && capitalized(&words[..k])
            && capitalized(&words[k + 2..])
    })
}

fn replaced(text: &[char], is_word: &dyn Fn(&[char]) -> bool, placeholder: &str) -> Vec<char> {
    let mut out = Vec::new();
    let mut i = 0;
    while i < text.len() {
        match (i + 1..=text.len()).rev().find(|j| is_word(&text[i..*j])) {
            Some(j) => {
                out.extend(placeholder.chars());
                i = j;
            }
            None => {
                out.push(text[i]);
                i += 1;
            }
        }
    }
    out
}

fn expected(text: &str) -> String {
    let t: Vec<char> = text.chars().collect();
    let t = replaced(&t, &is_current_date, "the current date is <DATE>");
    let t = replaced(&t, &is_commit, "commit <HASH>");
    let t = replaced(&t, &is_date_line, "Date: <DATE>");
    t.into_iter().collect()
}

#[test]
fn scrubbing_takes_the_longest_match_from_left_to_right() {
    let pieces = [
        "Date:", " ", "\n", "\\", "\"", "\t", "x", "\u{a0}", "Date: ", "D", ":", "the current date is ",
        "Monday", ", ", "June", " 02, 2026", "commit ", "a1b2c3d4e5f6a1b2c3d4e5f6a1b2c3d4e5f6a1b",
        "2", "c", "the current date is Monday, June 02, 2026", "\u{2028}", "\u{661}",
        "the current date is Mo, Ju \u{661}\u{662}, \u{1D7CE}\u{966}26", "<DATE>", "\u{1680}",
    ];
    let mut x: u64 = 88172645463325252;
    for _ in 0..4_000 {
        let mut text = String::new();
        for _ in 0..9 {
            x ^= x << 13;
            x ^= x >> 7;
            x ^= x << 17;
            text.push_str(pieces[(x % pieces.len() as u64) as usize]);
        }
        assert_eq!(scrub_nondeterministic_content(&text), expected(&text), "{:?}", text);
    }
}

#[test]
fn every_digit_and_white_space_character_counts() {
    let mut digits = 0;
    let mut spaces = 0;
    let mut text = String::new();
    let mut wanted = String::new();
    for u in 0..0x110000u32 {
        if let Some(c) = char::from_u32(u) {
            if !(is_digit(c) || is_space(c) || u % 997 == 0) {
                continue;
            }
            text.push_str(&format!("the current date is Mo, Ju {}2, 2026\n", c));
            if is_digit(c) {
                digits += 1;
                wanted.push_str("the current date is <DATE>\n");
            } else {
                wanted.push_str(&format!("the current date is Mo, Ju {}2, 2026\n", c));
            }
            if on_line(c) {
                text.push_str(&format!("Date:{}x\n", c));
                if is_space(c) {
                    spaces += 1;
                    wanted.push_str("Date: <DATE>\n");
                } else {
                    wanted.push_str(&format!("Date:{}x\n", c));
                }
            }
        }
    }
    assert_eq!(scrub_nondeterministic_content(&text), wanted);
    assert_eq!(digits, 760);
    assert_eq!(spaces, 24);
}

#[test]
fn one_date_line_may_stand_for_another() {
    for pre in ["", "x", "Date: ", "Date: x", "a\n", "commit "] {
        for post in ["", "\n", "\\nrest", "\nDate: y\n", " z", "\",\"b\":1", "z\"Date: y"] {
            let a = format!("{}Date:   Mon Jun 1{}", pre, post);
            let b = format!("{}Date: the current date is Mo, Ju 01, 2026{}", pre, post);
            assert_eq!(
                scrub_nondeterministic_content(&a),
                scrub_nondeterministic_content(&b)
            );
        }
    }
}
