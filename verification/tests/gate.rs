use admission_gate::gate::{
    between_brackets, build_number, is_windows_11, line_feeds_follow, MIN_BUILD,
};

#[test]
fn threshold_build_is_admitted() {
    let text = "Microsoft Windows [10.0.22000]\n";
    assert_eq!(build_number(text), 22000);
    assert!(is_windows_11(text));
}

#[test]
fn older_build_is_denied() {
    let text = "Microsoft Windows [10.0.19045]\n";
    assert_eq!(build_number(text), 19045);
    assert!(!is_windows_11(text));
}

#[test]
fn non_numeric_build_is_zero() {
    let text = "Microsoft Windows [10.0.abcde]\n";
    assert_eq!(build_number(text), 0);
    assert!(!is_windows_11(text));
}

#[test]
fn empty_text_is_denied() {
    assert_eq!(build_number(""), 0);
    assert!(!is_windows_11(""));
}

#[test]
fn newer_build_is_admitted() {
    let text = "Microsoft Windows [10.0.22631]\n";
    assert_eq!(build_number(text), 22631);
    assert!(is_windows_11(text));
}

#[test]
fn threshold_is_22000() {
    assert_eq!(MIN_BUILD, 22000);
    assert!(!is_windows_11("Microsoft Windows [10.0.21999]\n"));
    assert!(is_windows_11("Microsoft Windows [10.0.22000]\n"));
    assert!(is_windows_11("Microsoft Windows [10.0.22001]\n"));
}

#[test]
fn build_zero_is_denied() {
    let text = "Microsoft Windows [10.0.0]\n";
    assert_eq!(build_number(text), 0);
    assert!(!is_windows_11(text));
}

#[test]
fn any_banner_without_dots_is_accepted() {
    let text = "Some System [11.2.30000]\n";
    assert_eq!(build_number(text), 30000);
    assert!(is_windows_11(text));
    let text = "Some System [11.2.300]\n";
    assert_eq!(build_number(text), 300);
    assert!(!is_windows_11(text));
}

#[test]
fn two_fields_give_zero() {
    assert_eq!(build_number("Microsoft Windows [10.0]\n"), 0);
    assert!(!is_windows_11("Microsoft Windows [10.0]\n"));
    assert_eq!(build_number("Microsoft Windows [10]\n"), 0);
    assert_eq!(build_number("22000"), 0);
    assert_eq!(build_number("\n"), 0);
}

#[test]
fn empty_third_field_gives_zero() {
    assert_eq!(build_number("Microsoft Windows [10.0.]\n"), 0);
    assert_eq!(build_number("Microsoft Windows [10.0..22000]\n"), 0);
    assert!(!is_windows_11("Microsoft Windows [10.0..22000]\n"));
}

#[test]
fn fourth_field_is_ignored() {
    let text = "Microsoft Windows [10.0.22631.4317]\n";
    assert_eq!(build_number(text), 22631);
    assert!(is_windows_11(text));
}

#[test]
fn words_inside_the_brackets_stay_in_the_first_field() {
    let text = "Microsoft Windows [Version 10.0.22631.4317]\n";
    assert_eq!(build_number(text), 22631);
    assert!(is_windows_11(text));
}

#[test]
fn text_after_the_closing_bracket_spoils_the_build() {
    for text in [
        "Microsoft Windows [10.0.22000]x\n",
        "Microsoft Windows [10.0.22000]\r\n",
        "Microsoft Windows [10.0.22000] \n",
        "Microsoft Windows [10.0.22000]\n.",
        "Microsoft Windows [10.0.22000].1\n",
        "Microsoft Windows [10.0.22000]\n22000",
    ] {
        assert_eq!(build_number(text), 0);
        assert!(!is_windows_11(text));
    }
}

#[test]
fn line_feeds_after_the_closing_bracket_do_no_harm() {
    assert_eq!(build_number("Microsoft Windows [10.0.22000]"), 22000);
    assert_eq!(build_number("Microsoft Windows [10.0.22000]\n"), 22000);
    assert_eq!(build_number("Microsoft Windows [10.0.22000]\n\n\n"), 22000);
    assert!(is_windows_11("Microsoft Windows [10.0.22000]\n\n"));
}

#[test]
fn text_after_the_closing_bracket_joins_the_last_field() {
    assert_eq!(build_number("Microsoft Windows [10.0.22631.4317]\r\n"), 22631);
    assert_eq!(build_number("\r\nMicrosoft Windows [Version 10.0.22631.4317]\r\n"), 22631);
    assert_eq!(build_number("Microsoft Windows [10.0.19045.1]x"), 19045);
    assert!(is_windows_11("Microsoft Windows [10.0.22631.4317]\r\n"));
}

#[test]
fn line_feeds_follow_looks_behind_the_last_bracket() {
    let chars = |s: &str| s.chars().collect::<Vec<char>>();
    assert!(line_feeds_follow(&chars("[a]")));
    assert!(line_feeds_follow(&chars("[a]\n\n")));
    assert!(line_feeds_follow(&chars("x]y]\n")));
    assert!(!line_feeds_follow(&chars("[a]\n ")));
    assert!(!line_feeds_follow(&chars("[a]\r\n")));
    assert!(line_feeds_follow(&chars("")));
    assert!(line_feeds_follow(&chars("\n")));
    assert!(!line_feeds_follow(&chars("abc")));
}

#[test]
fn space_in_the_build_spoils_it() {
    assert_eq!(build_number("Microsoft Windows [10.0. 22000]\n"), 0);
    assert_eq!(build_number("Microsoft Windows [10.0.22000 ]\n"), 0);
    assert_eq!(build_number("Microsoft Windows [10.0.-22000]\n"), 0);
}

#[test]
fn plus_sign_is_read() {
    let text = "Microsoft Windows [10.0.+22000]\n";
    assert_eq!(build_number(text), 22000);
    assert!(is_windows_11(text));
}

#[test]
fn leading_zeros_are_read() {
    assert_eq!(build_number("Microsoft Windows [10.0.00022000]\n"), 22000);
    assert_eq!(build_number("Microsoft Windows [10.0.022]\n"), 22);
}

#[test]
fn build_too_large_for_the_machine_is_admitted() {
    let text = "Microsoft Windows [10.0.99999999999999999999999999999999999999999]\n";
    assert_eq!(build_number(text), usize::MAX);
    assert!(is_windows_11(text));
    let text = "Microsoft Windows [10.0.18446744073709551616]\n";
    assert_eq!(build_number(text), usize::MAX);
    assert!(is_windows_11(text));
    let text = "Microsoft Windows [10.0.340282366920938463463374607431768211456]\n";
    assert!(is_windows_11(text));
}

#[test]
fn large_build_with_a_letter_is_denied() {
    let text = "Microsoft Windows [10.0.99999999999999999999999999999999999999999x]\n";
    assert_eq!(build_number(text), 0);
    assert!(!is_windows_11(text));
}

#[test]
fn largest_build_is_read() {
    let text = format!("Microsoft Windows [10.0.{}]\n", usize::MAX);
    assert_eq!(build_number(&text), usize::MAX);
    assert!(is_windows_11(&text));
}

#[test]
fn line_break_or_bracket_in_the_build_spoils_it() {
    assert_eq!(build_number("Microsoft Windows [10.0.22\n000]\n"), 0);
    assert_eq!(build_number("Microsoft Windows [10.0.2]2]000]\n"), 0);
    assert_eq!(build_number("Microsoft Windows [10.0.22000]x]\n"), 0);
    assert_eq!(build_number("Microsoft Windows [10.0.[22000]\n"), 0);
    assert!(!is_windows_11("Microsoft Windows [10.0.22000]x]\n"));
}

#[test]
fn banner_inside_the_build_spoils_it() {
    let text = "Microsoft Windows [10.0.Microsoft Windows [22000]\n";
    assert_eq!(build_number(text), 0);
    assert!(!is_windows_11(text));
    assert_eq!(build_number("Microsoft Windows [10.0.22Microsoft Windows [000]\n"), 0);
}

#[test]
fn letters_in_the_build_spoil_it() {
    for build in ["abcde", "22000x", "x22000", "2 2000", "-22000", "", " ", "22_000"] {
        let text = format!("Microsoft Windows [10.0.{}]\n", build);
        assert_eq!(build_number(&text), 0);
        assert!(!is_windows_11(&text));
    }
}

#[test]
fn missing_bracket_gives_zero() {
    for text in [
        "Microsoft Windows [10.0.22631\n",
        "Microsoft Windows 10.0.22631]\n",
        "Microsoft Windows 10.0.22631\n",
        "10.0.22000",
        "Microsoft Windows ]10.0.22631[\n",
        "] Microsoft Windows [10.0.22631\n",
    ] {
        assert_eq!(build_number(text), 0);
        assert!(!is_windows_11(text));
    }
}

#[test]
fn dot_in_the_banner_does_no_harm() {
    assert_eq!(build_number("Microsoft Corp. Windows [10.0.22000]\n"), 22000);
    assert!(is_windows_11("Microsoft Corp. Windows [10.0.22000]\n"));
    assert_eq!(build_number("v. [10.22000.1]\n"), 1);
    assert!(!is_windows_11("v. [10.22000.1]\n"));
}

#[test]
fn bracket_in_the_banner_moves_the_version() {
    assert_eq!(build_number("a[1.2.3 [10.0.22000]\n"), 0);
    assert_eq!(build_number("a[1.2.3. [10.0.22000]\n"), 3);
    assert_eq!(build_number("a[b [10.0.22000]\n"), 22000);
}

#[test]
fn between_brackets_gives_the_version() {
    let chars = |s: &str| s.chars().collect::<Vec<char>>();
    assert_eq!(between_brackets(&chars("Microsoft Windows [10.0.22000]\n")), Some(chars("10.0.22000")));
    assert_eq!(between_brackets(&chars("[]")), Some(chars("")));
    assert_eq!(between_brackets(&chars("a[b[c]d]e")), Some(chars("b[c]d")));
    assert_eq!(between_brackets(&chars("][")), None);
    assert_eq!(between_brackets(&chars("[")), None);
    assert_eq!(between_brackets(&chars("]")), None);
    assert_eq!(between_brackets(&chars("")), None);
    assert_eq!(between_brackets(&chars("10.0.22000")), None);
}

#[test]
fn other_scripts_are_no_digits() {
    assert_eq!(build_number("Microsoft Windows [10.0.٢٢٠٠٠]\n"), 0);
    assert_eq!(build_number("Système [10.0.22000]\n"), 22000);
}

#[test]
fn same_text_gives_same_decision() {
    let texts = [
        "Microsoft Windows [10.0.22000]\n",
        "Microsoft Windows [10.0.19045]\n",
        "Microsoft Windows [10.0.abcde]\n",
        "",
    ];
    for text in texts {
        let first = is_windows_11(text);
        let second = is_windows_11(text);
        assert_eq!(first, second);
        assert_eq!(build_number(text), build_number(text));
    }
}

fn digits_only(s: &str) -> bool {
    s.strip_prefix('+').unwrap_or(s).chars().all(|c| c.is_ascii_digit())
}

fn number_by_std(field: &str) -> usize {
    match field.parse::<usize>() {
        Ok(number) => number,
        Err(e) => match e.kind() {
            std::num::IntErrorKind::PosOverflow if digits_only(field) => usize::MAX,
            _ => 0,
        },
    }
}

fn build_by_std(text: &str) -> usize {
    let (open, close) = match (text.find('['), text.rfind(']')) {
        (Some(open), Some(close)) if open < close => (open, close),
        _ => return 0,
    };
    let fields: Vec<&str> = text[open + 1..close].split('.').collect();
    let clean = text[close + 1..].chars().all(|c| c == '\n');
    if fields.len() > 3 || (fields.len() == 3 && clean) {
        number_by_std(fields[2])
    } else {
        0
    }
}

#[test]
fn build_number_agrees_with_std_on_every_short_line() {
    let pieces = [
        "Microsoft Windows ",
        "[",
        "é",
        "]",
        "\n",
        ".",
        "10",
        "22000",
        "99999999999999999999",
        "+",
        "x",
    ];
    let mut lines = vec![String::new()];
    let mut last = vec![String::new()];
    for _ in 0..5 {
        let mut next = Vec::new();
        for line in &last {
            for piece in pieces {
                next.push(format!("{}{}", line, piece));
            }
        }
        lines.extend(next.iter().cloned());
        last = next;
    }
    for line in &lines {
        let build = build_by_std(line);
        assert_eq!(build_number(line), build);
        assert_eq!(is_windows_11(line), build >= 22000);
    }
}
