use cargo_attribution::notices::{is_candidate_name, notices_in_text, scan_notices, DirEntryData};

fn file(name: &str, content: &str) -> DirEntryData {
    DirEntryData { name: name.to_string(), is_dir: false, content: Some(content.to_string()) }
}

#[test]
fn candidate_names_are_matched_case_insensitively() {
    assert!(is_candidate_name("LICENSE-MIT"));
    assert!(is_candidate_name("COPYING.txt"));
    assert!(is_candidate_name("LiCeNsE-APACHE"));
    assert!(!is_candidate_name("readme.md"));
    assert!(!is_candidate_name("src"));
}

#[test]
fn notice_line_is_extracted_and_trimmed() {
    let entries = vec![file("LICENSE-MIT", "MIT License\n\nCopyright (c) 2020 Jane Doe\n")];
    let notices = scan_notices(&entries);
    assert_eq!(notices, vec!["Copyright (c) 2020 Jane Doe".to_string()]);
}

#[test]
fn copyright_without_marker_or_year_is_excluded() {
    let entries = vec![file("LICENSE", "copyright notice follows\nall rights reserved\n")];
    let notices = scan_notices(&entries);
    assert_eq!(notices, Vec::<String>::new());
}

#[test]
fn year_alone_qualifies_a_copyright_line() {
    let entries = vec![file("COPYING", "  Copyright 2021 Someone  \n")];
    let notices = scan_notices(&entries);
    assert_eq!(notices, vec!["Copyright 2021 Someone".to_string()]);
}

#[test]
fn copyright_sign_qualifies_a_line() {
    let entries = vec![file("license.txt", "Copyright \u{a9} Example Corp\n")];
    let notices = scan_notices(&entries);
    assert_eq!(notices, vec!["Copyright \u{a9} Example Corp".to_string()]);
}

#[test]
fn three_digit_number_does_not_qualify() {
    let entries = vec![file("LICENSE", "Copyright room 101\n")];
    assert_eq!(scan_notices(&entries), Vec::<String>::new());
}

#[test]
fn identical_notices_in_two_files_are_deduplicated() {
    let line = "Copyright (c) 2019 Shared Author";
    let entries = vec![
        file("LICENSE-MIT", &format!("{line}\n")),
        file("LICENSE-APACHE", &format!("intro\n{line}\n")),
    ];
    let notices = scan_notices(&entries);
    assert_eq!(notices, vec![line.to_string()]);
}

#[test]
fn notices_come_back_sorted() {
    let entries = vec![file(
        "LICENSE",
        "Copyright (c) 2020 Zed\nCopyright (c) 2020 Amy\n",
    )];
    let notices = scan_notices(&entries);
    assert_eq!(
        notices,
        vec!["Copyright (c) 2020 Amy".to_string(), "Copyright (c) 2020 Zed".to_string()]
    );
}

#[test]
fn directories_and_non_candidates_and_unreadable_files_contribute_nothing() {
    let entries = vec![
        DirEntryData {
            name: "license-dir".to_string(),
            is_dir: true,
            content: Some("Copyright (c) 2020 Dir\n".to_string()),
        },
        file("README.md", "Copyright (c) 2020 Readme\n"),
        DirEntryData { name: "LICENSE".to_string(), is_dir: false, content: None },
    ];
    assert_eq!(scan_notices(&entries), Vec::<String>::new());
}

#[test]
fn notices_in_text_keeps_line_order_and_repeats() {
    let found = notices_in_text("Copyright (c) 2020 B\nplain\nCopyright (c) 2020 A\n");
    assert_eq!(
        found,
        vec!["Copyright (c) 2020 B".to_string(), "Copyright (c) 2020 A".to_string()]
    );
}

#[test]
fn empty_listing_and_text_without_final_newline_are_handled() {
    assert_eq!(scan_notices(&Vec::new()), Vec::<String>::new());
    let found = notices_in_text("Copyright (c) 2020 End");
    assert_eq!(found, vec!["Copyright (c) 2020 End".to_string()]);
}

#[test]
fn carriage_returns_are_trimmed_from_notices() {
    let entries = vec![file("LICENSE", "Copyright (c) 2022 CRLF\r\n")];
    assert_eq!(scan_notices(&entries), vec!["Copyright (c) 2022 CRLF".to_string()]);
}
