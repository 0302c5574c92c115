use eve_core::mail::{strip_markup, unread_count, MailHeader};

fn header(mail_id: i64, subject: &str, is_read: bool) -> MailHeader {
    MailHeader {
        mail_id,
        subject: subject.to_string(),
        from: 0,
        timestamp: String::new(),
        is_read,
        labels: vec![],
        recipients: vec![],
    }
}

#[test]
fn counts_unread() {
    let headers = vec![header(1, "a", false), header(2, "b", true), header(3, "c", false)];
    assert_eq!(unread_count(&headers), 2);
}

#[test]
fn strips_markup_to_plain_text() {
    let body = "<font size=\"14\" color=\"#bfffffff\">Hello o7<br><br>See you at <a href=\"showinfo:5//30000142\">Jita</a>.</font>";
    let text = strip_markup(body);
    assert_eq!(text, "Hello o7\n\nSee you at Jita.");
}

#[test]
fn strips_decodes_entities() {
    assert_eq!(strip_markup("a &amp; b &lt;tag&gt;"), "a & b <tag>");
}

#[test]
fn unread_count_of_empty_inbox_is_zero() {
    assert_eq!(unread_count(&[]), 0);
}

#[test]
fn strip_markup_keeps_plain_text_untouched() {
    assert_eq!(strip_markup("  plain words  "), "  plain words  ");
}

#[test]
fn strip_markup_breaks_on_self_closing_br_and_nbsp() {
    assert_eq!(strip_markup("a<BR/>b&nbsp;c<i>d</i>"), "a\nb cd");
}

#[test]
fn strip_markup_decodes_amp_after_lt() {
    assert_eq!(strip_markup("&amp;lt;"), "&lt;");
}
