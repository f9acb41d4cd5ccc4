//! The four announcement texts of the tech-event tool. Each one is the fixed
//! German template with the date, topic and description put in their slots.
use vstd::prelude::*;
use vstd::string::*;
use crate::digits::{decimal, decimal_string, push_decimal};
use crate::text::push_char;
use crate::time::{trim, trimmed};

verus! {

/// The chat announcement, as a sequence of characters.
pub open spec fn chat_text(date: Seq<char>, topic: Seq<char>, description: Seq<char>) -> Seq<char> {
    "Kommenden Samstag ("@ + date + ") ist wieder Tech-Event, zum Thema: "@ + topic + "\n\n"@
        + description
        + "\n\nWir starten wie immer um 14 Uhr; Eintritt ist wie immer kostenlos und ohne Anmeldung möglich.\nDiese Info dürft Ihr gerne weiterleiten."@
}

/// The e-mail subject line.
pub open spec fn email_subject_text(date: Seq<char>, topic: Seq<char>) -> Seq<char> {
    "Tech-Event - "@ + topic + " - Samstag "@ + date + " - 14 Uhr"@
}

/// The e-mail body: greeting, the chat text, and the sign-off.
pub open spec fn email_body_text(date: Seq<char>, topic: Seq<char>, description: Seq<char>) -> Seq<char> {
    "Hallo Zusammen,\n\n"@ + chat_text(date, topic, description) + "\n\nGruß,\nsportfloh"@
}

/// The Mastodon post.
pub open spec fn mastodon_text(date: Seq<char>, topic: Seq<char>, description: Seq<char>) -> Seq<char> {
    "Kommenden Samstag ("@ + date + " ab 14 Uhr) ist wieder Tech-Event, zum Thema: "@ + topic
        + "\n\n"@ + description
}

/// The Mastodon post is the 19 fixed characters `Kommenden Samstag (`, the
/// date, 46 fixed characters, the topic, a blank line and then the whole
/// description, which it ends with: nothing of any input is cut or changed.
pub proof fn law_mastodon_keeps_every_input_whole(
    date: Seq<char>,
    topic: Seq<char>,
    description: Seq<char>,
)
    ensures
        mastodon_text(date, topic, description).len() == 67 + (date.len() as int) + (topic.len() as int)
            + (description.len() as int),
        mastodon_text(date, topic, description).take(19) == "Kommenden Samstag ("@,
        mastodon_text(date, topic, description).subrange(19, 19 + (date.len() as int)) == date,
        mastodon_text(date, topic, description).subrange(
            65 + (date.len() as int),
            65 + (date.len() as int) + (topic.len() as int),
        ) == topic,
        mastodon_text(date, topic, description).skip(67 + (date.len() as int) + (topic.len() as int)) == description,
{
    reveal_strlit("Kommenden Samstag (");
    reveal_strlit(" ab 14 Uhr) ist wieder Tech-Event, zum Thema: ");
    reveal_strlit("\n\n");
    let s = mastodon_text(date, topic, description);
    let d = date.len() as int;
    let t = topic.len() as int;
    assert(s.take(19) =~= "Kommenden Samstag ("@);
    assert(s.subrange(19, 19 + d) =~= date);
    assert(s.subrange(65 + d, 65 + d + t) =~= topic);
    assert(s.skip(67 + d + t) =~= description);
}

/// The chat text holds the date, the topic and the whole description, each
/// in its slot, followed by the 136 fixed characters of the closing lines;
/// the e-mail body is the 17 characters of the greeting, the chat text and
/// the sign-off.
pub proof fn law_chat_keeps_every_input_whole(
    date: Seq<char>,
    topic: Seq<char>,
    description: Seq<char>,
)
    ensures
        chat_text(date, topic, description).len() == 193 + (date.len() as int) + (topic.len() as int)
            + (description.len() as int),
        chat_text(date, topic, description).subrange(19, 19 + (date.len() as int)) == date,
        chat_text(date, topic, description).subrange(
            55 + (date.len() as int),
            55 + (date.len() as int) + (topic.len() as int),
        ) == topic,
        chat_text(date, topic, description).subrange(
            57 + (date.len() as int) + (topic.len() as int),
            57 + (date.len() as int) + (topic.len() as int) + (description.len() as int),
        ) == description,
        email_body_text(date, topic, description).subrange(
            17,
            17 + chat_text(date, topic, description).len() as int,
        ) == chat_text(date, topic, description),
{
    reveal_strlit("Kommenden Samstag (");
    reveal_strlit(") ist wieder Tech-Event, zum Thema: ");
    reveal_strlit("\n\n");
    reveal_strlit(
        "\n\nWir starten wie immer um 14 Uhr; Eintritt ist wie immer kostenlos und ohne Anmeldung möglich.\nDiese Info dürft Ihr gerne weiterleiten.",
    );
    reveal_strlit("Hallo Zusammen,\n\n");
    let s = chat_text(date, topic, description);
    let d = date.len() as int;
    let t = topic.len() as int;
    let x = description.len() as int;
    assert(s.subrange(19, 19 + d) =~= date);
    assert(s.subrange(55 + d, 55 + d + t) =~= topic);
    assert(s.subrange(57 + d + t, 57 + d + t + x) =~= description);
    let e = email_body_text(date, topic, description);
    assert(e.subrange(17, 17 + s.len() as int) =~= s);
}

/// The e-mail subject holds the topic and the date whole, each in its slot
/// between the fixed words, and nothing else.
pub proof fn law_email_subject_keeps_topic_and_date(date: Seq<char>, topic: Seq<char>)
    ensures
        email_subject_text(date, topic).len() == 33 + date.len() + topic.len(),
        email_subject_text(date, topic).subrange(13, 13 + topic.len() as int) == topic,
        email_subject_text(date, topic).subrange(
            24 + topic.len() as int,
            24 + topic.len() as int + date.len() as int,
        ) == date,
{
    reveal_strlit("Tech-Event - ");
    reveal_strlit(" - Samstag ");
    reveal_strlit(" - 14 Uhr");
    let s = email_subject_text(date, topic);
    let t = topic.len() as int;
    let d = date.len() as int;
    assert(s.subrange(13, 13 + t) =~= topic);
    assert(s.subrange(24 + t, 24 + t + d) =~= date);
}

/// Renders the chat announcement.
pub fn chat(date: &str, topic: &str, description: &str) -> (res: String)
    ensures
        res@ == chat_text(date@, topic@, description@),
{
    let mut s = String::from_str("Kommenden Samstag (");
    s.append(date);
    s.append(") ist wieder Tech-Event, zum Thema: ");
    s.append(topic);
    s.append("\n\n");
    s.append(description);
    s.append(
        "\n\nWir starten wie immer um 14 Uhr; Eintritt ist wie immer kostenlos und ohne Anmeldung möglich.\nDiese Info dürft Ihr gerne weiterleiten.",
    );
    assert(s@ =~= chat_text(date@, topic@, description@));
    s
}

/// Renders the e-mail subject line.
pub fn email_subject(date: &str, topic: &str) -> (res: String)
    ensures
        res@ == email_subject_text(date@, topic@),
{
    let mut s = String::from_str("Tech-Event - ");
    s.append(topic);
    s.append(" - Samstag ");
    s.append(date);
    s.append(" - 14 Uhr");
    assert(s@ =~= email_subject_text(date@, topic@));
    s
}

/// Renders the e-mail body.
pub fn email_body(date: &str, topic: &str, description: &str) -> (res: String)
    ensures
        res@ == email_body_text(date@, topic@, description@),
{
    let mut s = String::from_str("Hallo Zusammen,\n\n");
    let inner = chat(date, topic, description);
    s.append(inner.as_str());
    s.append("\n\nGruß,\nsportfloh");
    assert(s@ =~= email_body_text(date@, topic@, description@));
    s
}

/// Renders the Mastodon post.
pub fn mastodon(date: &str, topic: &str, description: &str) -> (res: String)
    ensures
        res@ == mastodon_text(date@, topic@, description@),
{
    let mut s = String::from_str("Kommenden Samstag (");
    s.append(date);
    s.append(" ab 14 Uhr) ist wieder Tech-Event, zum Thema: ");
    s.append(topic);
    s.append("\n\n");
    s.append(description);
    assert(s@ =~= mastodon_text(date@, topic@, description@));
    s
}

} // verus!

verus! {

/// All three inputs hold more than white space, so the texts can be copied.
pub fn inputs_complete(date: &str, topic: &str, description: &str) -> (res: bool)
    ensures
        res == (trimmed(date@).len() > 0 && trimmed(topic@).len() > 0 && trimmed(description@).len()
            > 0),
{
    trim(date).unicode_len() > 0 && trim(topic).unicode_len() > 0 && trim(description).unicode_len()
        > 0
}

/// The counter shown under a text with a character limit: `<count>/<limit>`,
/// counting characters.
pub fn char_count_label(text: &str, limit: u32) -> (res: String)
    ensures
        res@ == decimal(text@.len()) + seq!['/'] + decimal(limit as nat),
{
    let n = text.unicode_len();
    let mut s = decimal_string(n as u64);
    push_char(&mut s, '/');
    push_decimal(&mut s, limit as u64);
    s
}

/// Whether a text has more characters than its limit allows.
pub fn over_char_limit(text: &str, limit: u32) -> (res: bool)
    ensures
        res == (text@.len() > limit),
{
    text.unicode_len() > limit as usize
}

} // verus!
