use jev_sentinel::text::{escape_html, sanitize_inline_field, split_into_chunks, truncate_field};

#[test]
fn test_escape_html_entities() {
    let raw = "Service <critical> & timeout > 5000ms";
    let escaped = escape_html(raw);
    assert_eq!(escaped, "Service &lt;critical&gt; &amp; timeout &gt; 5000ms");
}

#[test]
fn test_truncate_field_boundary_cases() {
    assert_eq!(truncate_field("текст", 0), "");
    assert_eq!(truncate_field("текст", 1), "…");
    assert_eq!(truncate_field("", 0), "");
    assert_eq!(truncate_field("я", 1), "я");
    assert_eq!(truncate_field("длинный русский текст", 10), "длинный р…");
    assert!(truncate_field("длинный русский текст", 10).chars().count() <= 10);
}

#[test]
fn test_truncate_field_cyrillic_and_emojis() {
    let long_error = "🚨 Ошибка подключения к базе данных: сервер перегружен или недоступен! ".repeat(5);
    let truncated = truncate_field(&long_error, 180);
    assert!(truncated.chars().count() <= 180);
    assert!(truncated.ends_with('…'));
    let escaped = escape_html(&truncated);
    assert!(!escaped.contains('<'));
    assert!(!escaped.contains('>'));
}

#[test]
fn escape_html_quotes_and_keeps_other_text() {
    assert_eq!(escape_html("say \"hi\""), "say &quot;hi&quot;");
    assert_eq!(escape_html("плайн"), "плайн");
    assert_eq!(escape_html(""), "");
}

#[test]
fn truncate_keeps_short_text_whole() {
    assert_eq!(truncate_field("abc", 3), "abc");
    assert_eq!(truncate_field("abcd", 3), "ab…");
}

#[test]
fn inline_fields_are_single_line() {
    assert_eq!(sanitize_inline_field("a\nb\r\tc", 20), "a b \tc");
    let s = sanitize_inline_field(&("x\n".to_string() + &"y".repeat(80)), 10);
    assert!(!s.contains('\n'));
    assert_eq!(s.chars().count(), 10);
}

#[test]
fn chunks_respect_the_telegram_limit_and_keep_all_text() {
    let line = "z".repeat(100);
    let text = vec![line.clone(); 100].join("\n");
    let chunks = split_into_chunks(&text);
    assert!(chunks.len() > 1);
    for c in &chunks {
        assert!(c.chars().count() <= 3900);
    }
    assert_eq!(chunks.join("\n"), text);
    assert_eq!(split_into_chunks("one\ntwo"), vec!["one\ntwo".to_string()]);
}

#[test]
fn long_lines_are_cut_outside_entities() {
    let line = format!("ab{}", "&quot;".repeat(1000));
    let chunks = split_into_chunks(&line);
    assert!(chunks.len() > 1);
    assert_eq!(chunks.concat(), line);
    for c in &chunks {
        assert!(c.chars().count() <= 3900);
        assert!(c.ends_with(';'));
    }
    let plain = "x".repeat(8000);
    let parts = split_into_chunks(&plain);
    assert_eq!(parts.iter().map(|p| p.chars().count()).collect::<Vec<_>>(), vec![3900, 3900, 200]);
}
