use trackit::templates::{
    char_count_label, chat, email_body, email_subject, inputs_complete, mastodon, over_char_limit,
};

#[test]
fn chat_renders_full_template() {
    let r = chat("08.11.2025", "Rust im Alltag", "Ein Vortrag über Rust.");
    assert!(r.contains("Samstag (08.11.2025)"), "missing date in parens");
    assert!(r.contains("zum Thema: Rust im Alltag"), "missing topic");
    assert!(
        r.contains("Ein Vortrag über Rust.\n\nWir"),
        "description must be followed by blank line"
    );
    assert!(r.contains("14 Uhr"), "missing time");
    assert!(r.contains("kostenlos"), "missing free-entry line");
    assert!(r.contains("weiterleiten"), "missing forward-info line");
}

#[test]
fn chat_with_empty_inputs_preserves_structure() {
    let r = chat("", "", "");
    assert!(
        r.contains("Samstag ()"),
        "date slot should be empty inside parens"
    );
    assert!(r.contains("zum Thema: "), "topic slot should be empty");
    assert!(r.contains("14 Uhr"));
}

#[test]
fn email_subject_renders_correctly() {
    assert_eq!(
        email_subject("08.11.2025", "Rust im Alltag"),
        "Tech-Event - Rust im Alltag - Samstag 08.11.2025 - 14 Uhr"
    );
}

#[test]
fn email_subject_empty_inputs() {
    assert_eq!(email_subject("", ""), "Tech-Event -  - Samstag  - 14 Uhr");
}

#[test]
fn email_body_renders_full_template() {
    let r = email_body("08.11.2025", "Rust im Alltag", "Ein Vortrag über Rust.");
    assert!(r.starts_with("Hallo Zusammen,"), "must start with greeting");
    assert!(r.contains("Samstag (08.11.2025)"));
    assert!(r.contains("zum Thema: Rust im Alltag"));
    assert!(
        r.contains("Ein Vortrag über Rust.\n\nWir"),
        "description must be followed by blank line"
    );
    assert!(r.contains("kostenlos"));
    assert!(r.contains("Gruß,"), "missing sign-off");
    assert!(r.contains("sportfloh"), "missing name");
}

#[test]
fn mastodon_renders_correctly() {
    let r = mastodon("08.11.2025", "Rust im Alltag", "Ein Vortrag.");
    assert!(r.contains("08.11.2025 ab 14 Uhr"), "missing date+time");
    assert!(r.contains("zum Thema: Rust im Alltag"));
    assert!(r.contains("Ein Vortrag."));
}

#[test]
fn chat_text_is_exact() {
    assert_eq!(
        chat("D", "T", "X"),
        "Kommenden Samstag (D) ist wieder Tech-Event, zum Thema: T\n\nX\n\nWir starten wie immer um 14 Uhr; Eintritt ist wie immer kostenlos und ohne Anmeldung möglich.\nDiese Info dürft Ihr gerne weiterleiten."
    );
}

#[test]
fn email_body_wraps_the_chat_text() {
    let body = email_body("D", "T", "X");
    let inner = chat("D", "T", "X");
    assert_eq!(body, format!("Hallo Zusammen,\n\n{}\n\nGruß,\nsportfloh", inner));
}

#[test]
fn mastodon_text_is_exact() {
    assert_eq!(
        mastodon("D", "T", "X"),
        "Kommenden Samstag (D ab 14 Uhr) ist wieder Tech-Event, zum Thema: T\n\nX"
    );
}

#[test]
fn inputs_complete_needs_all_three_non_blank() {
    assert!(inputs_complete("08.11.2025", "Rust", "Vortrag"));
    assert!(!inputs_complete("08.11.2025", "   ", "Vortrag"));
    assert!(!inputs_complete("", "Rust", "Vortrag"));
    assert!(!inputs_complete("x", "y", "\n\t"));
}

#[test]
fn char_count_label_and_limit() {
    assert_eq!(char_count_label("Größe", 500), "5/500");
    assert!(!over_char_limit("abc", 3));
    assert!(over_char_limit("abcd", 3));
}
