use chat_search::chat::{is_whatsapp_export, non_blank_messages, parse_whatsapp, plan_document, DocumentError};
use chat_search::text::split_lines;

fn padded(head: &str) -> String {
    let mut s = String::from(head);
    while s.chars().count() < 500 {
        s.push_str("\n[12/03/24, 09:20:00] Carol: more text to fill the window");
    }
    s
}

#[test]
fn ios_chat_detected_and_parsed() {
    let head = "[12/03/24, 09:15:32] Alice: hello\n[12/03/24, 09:15:40] Bob: hi";
    assert!(is_whatsapp_export(&padded(head)));
    let msgs = parse_whatsapp(head);
    assert_eq!(msgs.len(), 2);
    assert_eq!(msgs[0].sender, "Alice");
    assert_eq!(msgs[0].date, "12/03/24, 09:15:32");
    assert_eq!(msgs[0].content, "hello");
    assert_eq!(msgs[1].sender, "Bob");
    assert_eq!(msgs[1].content, "hi");
}

#[test]
fn android_chat_detected_and_parsed() {
    let head = "12/03/24, 09:15 - Alice: hello\n12/03/24, 09:16 - Bob: hi";
    let mut s = String::from(head);
    while s.chars().count() < 500 {
        s.push_str("\n12/03/24, 09:17 - Carol: more text to fill the window");
    }
    assert!(is_whatsapp_export(&s));
    let msgs = parse_whatsapp(head);
    assert_eq!(msgs.len(), 2);
    assert_eq!(msgs[0].date, "12/03/24, 09:15");
    assert_eq!(msgs[1].sender, "Bob");
}

#[test]
fn short_document_is_not_a_chat() {
    let head = "[12/03/24, 09:15:32] Alice: hello\n[12/03/24, 09:15:40] Bob: hi";
    assert!(!is_whatsapp_export(head));
}

#[test]
fn prose_is_not_a_chat() {
    let s = "plain prose without any time stamps. ".repeat(30);
    assert!(!is_whatsapp_export(&s));
    assert_eq!(plan_document(&s).err(), Some(DocumentError::NotChatExport));
}

#[test]
fn stamp_after_the_window_is_not_seen() {
    let mut s = "x".repeat(600);
    s.push_str("\n[12/03/24, 09:15:32] Alice: hello");
    assert!(!is_whatsapp_export(&s));
}

#[test]
fn continuation_lines_join_the_message() {
    let t = "[12/03/24, 09:15:32] Alice: line1\ncontinuation\n[12/03/24, 09:16:00] Bob: reply";
    let msgs = parse_whatsapp(t);
    assert_eq!(msgs.len(), 2);
    assert_eq!(msgs[0].content, "line1\ncontinuation");
    assert_eq!(msgs[1].content, "reply");
}

#[test]
fn system_line_is_dropped() {
    let t = "[12/03/24, 09:15:32] Alice: hi\n12/03/24, 09:14:00 - Messages are encrypted\nmore";
    let msgs = parse_whatsapp(t);
    assert_eq!(msgs.len(), 1);
    assert_eq!(msgs[0].content, "hi\nmore");
}

#[test]
fn lines_before_any_header_are_ignored() {
    let msgs = parse_whatsapp("preamble\n[12/03/24, 09:15:32] Alice: hi");
    assert_eq!(msgs.len(), 1);
    assert_eq!(msgs[0].content, "hi");
}

#[test]
fn crlf_lines_are_split() {
    let lines = split_lines("a\r\nb\n\nc\n");
    assert_eq!(lines, vec!["a".to_string(), "b".to_string(), String::new(), "c".to_string()]);
    assert!(split_lines("").is_empty());
    assert_eq!(split_lines("x\r"), vec!["x\r".to_string()]);
}

#[test]
fn blank_messages_are_discarded() {
    let t = "[12/03/24, 09:15:32] Alice:  \n[12/03/24, 09:15:40] Bob: hi";
    let msgs = non_blank_messages(t);
    assert_eq!(msgs.len(), 1);
    assert_eq!(msgs[0].sender, "Bob");
}

#[test]
fn context_uses_previous_and_second_to_last() {
    let mut t = String::new();
    for (i, w) in ["one", "two", "three", "four"].iter().enumerate() {
        t.push_str(&format!("[12/03/24, 09:15:3{}] Alice: {}\n", i, w));
    }
    while t.chars().count() < 500 {
        t.push_str("tail continuation text\n");
    }
    let plan = plan_document(&t).ok().unwrap();
    assert_eq!(plan.len(), 4);
    let four = plan[3].message.content.clone();
    let three = "three";
    assert_eq!(plan[0].embed_text, format!("one {}", three));
    assert_eq!(plan[1].embed_text, format!("one two {}", three));
    assert_eq!(plan[2].embed_text, format!("two three {}", three));
    assert_eq!(plan[3].embed_text, format!("{} {}", three, four));
    assert_eq!(plan[1].message.content, "two");
}

#[test]
fn single_message_embeds_alone() {
    let mut t = String::from("[12/03/24, 09:15:32] Alice: only");
    while t.chars().count() < 500 {
        t.push_str("\nrest of the message");
    }
    let plan = plan_document(&t).ok().unwrap();
    assert_eq!(plan.len(), 1);
    assert_eq!(plan[0].embed_text, plan[0].message.content);
}
