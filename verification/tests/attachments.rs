use pi_chat::attachments::{
    attachment, base64_encode, is_text_like, mime_for, plan_reading, read_attachment, FileFacts,
    Reading,
};
use pi_chat::ids::{fresh_id, fresh_token};

fn b64(s: &str) -> String {
    base64_encode(&s.as_bytes().to_vec())
}

fn facts(is_file: bool, size: u64) -> Result<FileFacts, String> {
    Ok(FileFacts { is_file, size })
}

#[test]
fn base64_matches_known_vectors() {
    assert_eq!(b64(""), "");
    assert_eq!(b64("f"), "Zg==");
    assert_eq!(b64("fo"), "Zm8=");
    assert_eq!(b64("foo"), "Zm9v");
    assert_eq!(b64("foob"), "Zm9vYg==");
    assert_eq!(b64("fooba"), "Zm9vYmE=");
    assert_eq!(b64("foobar"), "Zm9vYmFy");
}

#[test]
fn base64_uses_the_whole_alphabet() {
    assert_eq!(base64_encode(&vec![0xfb, 0xff, 0xbf]), "+/+/");
    assert_eq!(base64_encode(&vec![0, 16, 131, 16, 81, 135]), "ABCDEFGH");
    assert_eq!(base64_encode(&vec![255, 255, 255, 255]), "/////w==");
}

#[test]
fn reads_text_file_contents() {
    let a = read_attachment("notes.txt", "txt", 16, b"hello attachment".to_vec());
    assert_eq!(a.kind, "file");
    assert_eq!(a.name, "notes.txt");
    assert_eq!(a.text.as_deref(), Some("hello attachment"));
    assert!(a.data_url.is_none());
}

#[test]
fn reads_image_as_data_url() {
    let a = read_attachment("pic.png", "png", 4, vec![0u8, 1, 2, 3]);
    assert_eq!(a.kind, "image");
    assert_eq!(a.mime, "image/png");
    assert_eq!(a.data_url.as_deref(), Some("data:image/png;base64,AAECAw=="));
}

#[test]
fn rejects_directories() {
    let refused = plan_reading("/tmp", "", facts(false, 4096));
    assert_eq!(refused.unwrap_err(), "/tmp is not a file");
    let gone = plan_reading("/x", "txt", Err("gone".to_string()));
    assert_eq!(gone.unwrap_err(), "/x: gone");
}

#[test]
fn plans_how_a_file_is_carried() {
    assert_eq!(plan_reading("a.svg", "svg", facts(true, 9_000_000)).unwrap(), Reading::Image);
    assert_eq!(plan_reading("a.md", "md", facts(true, 1_000_000)).unwrap(), Reading::Text);
    assert_eq!(plan_reading("a.md", "md", facts(true, 1_000_001)).unwrap(), Reading::Name);
    assert_eq!(plan_reading("a.pdf", "pdf", facts(true, 1)).unwrap(), Reading::Name);
    assert_eq!(plan_reading("A.PNG", "PNG", facts(true, 1)).unwrap(), Reading::Image);
    assert_eq!(plan_reading("A.Md", "Md", facts(true, 1)).unwrap(), Reading::Text);
}

#[test]
fn the_case_of_an_extension_makes_no_difference() {
    let upper = attachment("i".to_string(), "A.PNG", "PNG", 1, vec![0]);
    assert_eq!((upper.kind.as_str(), upper.mime.as_str()), ("image", "image/png"));
    assert_eq!(upper.data_url.as_deref(), Some("data:image/png;base64,AA=="));
    let mixed = attachment("i".to_string(), "a.Txt", "Txt", 1, vec![65]);
    assert_eq!(mixed.text.as_deref(), Some("A"));
}

#[test]
fn text_that_is_no_utf8_is_carried_by_name() {
    let a = attachment("i".to_string(), "a.txt", "txt", 2, vec![0xff, 0xfe]);
    assert_eq!(a.text, None);
    assert_eq!(a.kind, "file");
    let a = attachment("i".to_string(), "a.txt", "txt", 3, "ü!".as_bytes().to_vec());
    assert_eq!(a.text.as_deref(), Some("ü!"));
    let a = attachment("i".to_string(), "a.pdf", "pdf", 1, vec![65]);
    assert_eq!((a.mime.as_str(), a.text), ("application/pdf", None));
}

#[test]
fn kinds_of_files() {
    assert_eq!(mime_for("jpeg"), "image/jpeg");
    assert_eq!(mime_for("yml"), "text/plain");
    assert_eq!(mime_for("cpp"), "application/octet-stream");
    assert!(is_text_like("cpp"));
    assert!(is_text_like("gitignore"));
    assert!(!is_text_like("exe"));
}

#[test]
fn identifiers_differ_and_have_their_form() {
    let (a, b) = (fresh_id(), fresh_id());
    assert_ne!(a, b);
    assert_eq!(a.len(), 36);
    assert_eq!(a.matches('-').count(), 4);
    let token = fresh_token();
    assert_eq!(token.len(), 32);
    assert!(token.chars().all(|c| c.is_ascii_hexdigit()));
}
