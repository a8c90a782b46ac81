use betterjenkins::upload::{body_text_lines, process_upload, scan_lines, split_bytes, UploadItem, UploadOutcome};

fn lines(v: &[&str]) -> Vec<String> {
    v.iter().map(|s| s.to_string()).collect()
}

const DOC: &str = "name: demo";

fn yaml_body() -> Vec<u8> {
    let mut body = Vec::new();
    body.extend_from_slice(b"------boundary\r\n");
    body.extend_from_slice(b"Content-Disposition: form-data; name=\"file\"; filename=\"sample.yaml\"\r\n");
    body.extend_from_slice(b"Content-Type: application/x-yaml\r\n");
    body.extend_from_slice(b"\r\n");
    body.extend_from_slice(DOC.as_bytes());
    body.extend_from_slice(b"\r\n------boundary--\r\n");
    body
}

#[test]
fn split_bytes_cuts_at_every_separator() {
    assert_eq!(split_bytes(b"a\rbc\r", 13), vec![b"a".to_vec(), b"bc".to_vec(), Vec::new()]);
    assert_eq!(split_bytes(b"", 13), vec![Vec::<u8>::new()]);
    assert_eq!(split_bytes(b"\r\r", 13), vec![Vec::<u8>::new(), Vec::new(), Vec::new()]);
    assert_eq!(split_bytes(b"plain", 13), vec![b"plain".to_vec()]);
}

#[test]
fn body_text_lines_strips_line_feeds() {
    assert_eq!(body_text_lines(b"one\r\ntwo\r\n\nthree"), Some(lines(&["one", "two", "\nthree"])));
    assert_eq!(body_text_lines(b""), Some(lines(&[""])));
}

#[test]
fn body_text_lines_refuses_bytes_that_are_not_utf8() {
    assert_eq!(body_text_lines(b"ok\r\n\xff\xfe"), None);
    assert_eq!(body_text_lines(b"\xc3"), None);
    assert_eq!(body_text_lines("é\r\nü".as_bytes()), Some(lines(&["é", "ü"])));
}

#[test]
fn yaml_upload_yields_its_document() {
    assert_eq!(
        process_upload(&yaml_body()),
        UploadOutcome::Items(vec![UploadItem::Document(DOC.to_string())])
    );
}

#[test]
fn non_yaml_upload_is_reported() {
    let body = b"--b\r\nContent-Type: application/json\r\n\r\n{}\r\n--b--\r\n";
    assert_eq!(process_upload(body), UploadOutcome::Items(vec![UploadItem::NotYaml]));
}

#[test]
fn empty_yaml_file_is_reported() {
    let body = b"--b\r\nContent-Type: text/yaml\r\n\r\n\r\n--b--\r\n";
    assert_eq!(process_upload(body), UploadOutcome::Items(vec![UploadItem::EmptyFile]));
}

#[test]
fn yaml_header_at_the_end_has_no_file() {
    assert_eq!(process_upload(b"Content-Type: yaml"), UploadOutcome::Items(vec![UploadItem::EmptyFile]));
    assert_eq!(process_upload(b"Content-Type: yaml\r\n"), UploadOutcome::Items(vec![UploadItem::EmptyFile]));
}

#[test]
fn body_without_content_type_holds_nothing() {
    assert_eq!(process_upload(b"just\r\nsome\r\ntext"), UploadOutcome::Items(vec![]));
    assert_eq!(process_upload(b""), UploadOutcome::Items(vec![]));
}

#[test]
fn body_that_is_not_utf8_is_refused() {
    let mut body = yaml_body();
    body.push(0xff);
    assert_eq!(process_upload(&body), UploadOutcome::NotUtf8);
}

#[test]
fn scan_reads_several_parts_in_order() {
    let l = lines(&[
        "Content-Type: application/json",
        "",
        "{}",
        "Content-Type: application/yaml",
        "",
        "name: a",
        "Content-Type: text/yaml",
        "",
        "",
    ]);
    assert_eq!(
        scan_lines(&l),
        vec![UploadItem::NotYaml, UploadItem::Document("name: a".to_string()), UploadItem::EmptyFile]
    );
}

#[test]
fn scan_skips_the_two_lines_after_a_yaml_header() {
    // The file line itself names a content type, but it is taken as the file.
    let l = lines(&["Content-Type: yaml", "x", "Content-Type: json", "tail"]);
    assert_eq!(scan_lines(&l), vec![UploadItem::Document("Content-Type: json".to_string())]);
}

#[test]
fn scan_of_a_part_laws_hold_on_examples() {
    // A plain line adds nothing; a non-YAML header adds one report.
    let rest = lines(&["Content-Type: yaml", "", "doc"]);
    let mut with_plain = lines(&["hello"]);
    with_plain.extend(rest.clone());
    assert_eq!(scan_lines(&with_plain), scan_lines(&rest));
    let mut with_json = lines(&["Content-Type: json"]);
    with_json.extend(rest.clone());
    let mut expected = vec![UploadItem::NotYaml];
    expected.extend(scan_lines(&rest));
    assert_eq!(scan_lines(&with_json), expected);
}

#[test]
fn upload_body_law_holds_on_an_example() {
    // header CR blank CR file CR tail: the file comes first, then the tail's items.
    let tail = b"\nContent-Type: json\r\n\r\n{}";
    let mut body = Vec::new();
    body.extend_from_slice(b"Content-Type: yaml\r\n\r\nname: x\r");
    body.extend_from_slice(tail);
    let mut expected = vec![UploadItem::Document("name: x".to_string())];
    match process_upload(tail) {
        UploadOutcome::Items(items) => expected.extend(items),
        UploadOutcome::NotUtf8 => panic!("tail is text"),
    }
    assert_eq!(process_upload(&body), UploadOutcome::Items(expected));
}
