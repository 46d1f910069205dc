use diffnote::image::{data_uri, file_name, id_of, ids_in, is_id, kind, SCHEME};

const PNG: &[u8] = &[
    0x89, b'P', b'N', b'G', 0x0d, 0x0a, 0x1a, 0x0a, 0, 0, 0, 0x0d, b'I', b'H', b'D', b'R',
];

#[test]
fn an_image_is_told_by_its_bytes_and_only_the_known_kinds_may_be_attached() {
    assert_eq!(kind(PNG), Ok("image/png"));
    assert_eq!(kind(&[0xff, 0xd8, 0xff, 0xe0, 0]), Ok("image/jpeg"));
    assert_eq!(kind(b"GIF89a....."), Ok("image/gif"));
    assert_eq!(kind(b"RIFF\x10\0\0\0WEBPVP8 "), Ok("image/webp"));
    assert!(kind(b"").is_err());
    assert!(kind(b"just text").is_err());
    assert!(kind(b"<html><body>x</body></html>").is_err());
}

#[test]
fn an_svg_with_nothing_that_runs_or_loads_is_taken_and_any_other_is_refused() {
    let good = br#"<?xml version="1.0"?><svg xmlns="http://www.w3.org/2000/svg" viewBox="0 0 4 4"><rect width="4" height="4" fill="red"/></svg>"#;
    assert_eq!(kind(good), Ok("image/svg+xml"));
    for bad in [
        r#"<svg xmlns="http://www.w3.org/2000/svg"><script>alert(1)</script></svg>"#,
        r#"<svg xmlns="http://www.w3.org/2000/svg" onload="alert(1)"></svg>"#,
        r#"<svg xmlns="http://www.w3.org/2000/svg" ONCLICK = "x"></svg>"#,
        r#"<svg xmlns="http://www.w3.org/2000/svg"><foreignObject><div/></foreignObject></svg>"#,
        r#"<svg xmlns="http://www.w3.org/2000/svg"><image href="https://x.example/a.png"/></svg>"#,
        r#"<svg xmlns="http://www.w3.org/2000/svg"><a href="javascript:alert(1)"><rect/></a></svg>"#,
        r#"<!DOCTYPE svg [<!ENTITY x "y">]><svg xmlns="http://www.w3.org/2000/svg"/>"#,
    ] {
        assert!(kind(bad.as_bytes()).is_err(), "{bad}");
    }
    // A word that only looks like a handler is fine.
    assert_eq!(
        kind(br#"<svg xmlns="http://www.w3.org/2000/svg"><text>only one action on it</text></svg>"#),
        Ok("image/svg+xml")
    );
}

#[test]
fn a_name_to_save_a_file_under_is_only_a_name() {
    assert_eq!(file_name("report.pdf"), "report.pdf");
    assert_eq!(file_name("C:\\dir\\log file.txt"), "log file.txt");
    assert_eq!(file_name("../../etc/passwd"), "passwd");
    assert_eq!(file_name("a\"b\r\n.txt"), "ab.txt");
    assert_eq!(file_name(".hidden"), "hidden");
    assert_eq!(file_name(""), "file");
    assert_eq!(file_name("///"), "file");
    assert_eq!(file_name(&"x".repeat(500)).chars().count(), 120);
}

#[test]
fn a_comment_names_its_images_by_their_digests() {
    let id = id_of(PNG);
    assert!(is_id(&id));
    assert!(!is_id("ABC"));
    let body = format!("look ![a]({SCHEME}{id}) and again ![b]({SCHEME}{id}) and ![c]({SCHEME}short)");
    assert_eq!(ids_in(&body), vec![id]);
    assert!(data_uri("image/png", PNG).starts_with("data:image/png;base64,iVBORw0KGgo"));
}
