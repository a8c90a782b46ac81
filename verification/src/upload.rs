//! Reading an uploaded task file out of the body of an upload request.
//!
//! The body is cut into lines at every carriage return, a leading line feed
//! is dropped from each line, and every line must be UTF-8. Then the lines are
//! read in order: a line that names a `Content-Type` starts a part; when that
//! content type is YAML, the line after the next one is the uploaded file.

use vstd::prelude::*;
use vstd::utf8::*;
use crate::text::{chars_of, contains_chars, contains_seq};

verus! {

/// Carriage return: the byte at which the body is cut into lines.
pub const CR: u8 = 13;

/// Line feed: dropped from the start of each line.
pub const LF: u8 = 10;

/// The pieces of `s` between the occurrences of `sep` (what `split` on a
/// byte slice yields): one more piece than there are separators.
pub open spec fn split_on(s: Seq<u8>, sep: u8) -> Seq<Seq<u8>>
    decreases s.len(),
{
    if s.len() == 0 {
        seq![Seq::<u8>::empty()]
    } else {
        let rest = split_on(s.drop_last(), sep);
        if s.last() == sep {
            rest.push(Seq::<u8>::empty())
        } else {
            rest.update(rest.len() - 1, rest.last().push(s.last()))
        }
    }
}

/// A line without the line feed that starts it, if any.
pub open spec fn strip_line_feed(line: Seq<u8>) -> Seq<u8> {
    if line.len() > 0 && line[0] == LF {
        line.drop_first()
    } else {
        line
    }
}

/// The lines of an upload body, as bytes.
pub open spec fn body_lines(body: Seq<u8>) -> Seq<Seq<u8>> {
    split_on(body, CR).map_values(|l: Seq<u8>| strip_line_feed(l))
}

/// Every line of the body is valid UTF-8.
pub open spec fn body_is_text(body: Seq<u8>) -> bool {
    forall|i: int| 0 <= i < body_lines(body).len() ==> valid_utf8(#[trigger] body_lines(body)[i])
}

/// The lines of an upload body, as text.
pub open spec fn body_text(body: Seq<u8>) -> Seq<Seq<char>> {
    body_lines(body).map_values(|l: Seq<u8>| decode_utf8(l))
}

/// One part of an upload, as the scan of its lines finds it.
#[derive(Debug, Clone, PartialEq, Eq)]
pub enum UploadItem {
    /// A part whose content type is not YAML.
    NotYaml,
    /// A YAML part whose file line is missing or empty.
    EmptyFile,
    /// A YAML part and the text of its file line.
    Document(String),
}

/// The mathematical value of an [`UploadItem`].
pub enum UploadItemView {
    NotYaml,
    EmptyFile,
    Document(Seq<char>),
}

impl View for UploadItem {
    type V = UploadItemView;

    open spec fn view(&self) -> UploadItemView {
        match self {
            UploadItem::NotYaml => UploadItemView::NotYaml,
            UploadItem::EmptyFile => UploadItemView::EmptyFile,
            UploadItem::Document(s) => UploadItemView::Document(s@),
        }
    }
}

/// What an upload body holds.
#[derive(Debug, Clone, PartialEq, Eq)]
pub enum UploadOutcome {
    /// Some line of the body is not UTF-8; nothing is read from it.
    NotUtf8,
    /// The parts found, in the order of the body.
    Items(Vec<UploadItem>),
}

/// The marker of a line that starts a part.
pub open spec fn content_type_marker() -> Seq<char> {
    "Content-Type"@
}

/// The marker of a YAML content type.
pub open spec fn yaml_marker() -> Seq<char> {
    "yaml"@
}

/// The item for a YAML part whose file line is `file`.
pub open spec fn file_item(file: Seq<char>) -> UploadItemView {
    if file.len() == 0 {
        UploadItemView::EmptyFile
    } else {
        UploadItemView::Document(file)
    }
}

/// The items found reading `lines` from line `i` on. A line with the
/// content-type marker starts a part; a non-YAML part is reported and the
/// scan goes on with the next line; for a YAML part the next line is
/// skipped, the one after it is the file (empty when the lines run out), and
/// the scan goes on after the file.
pub open spec fn scan_from(lines: Seq<Seq<char>>, i: int) -> Seq<UploadItemView>
    decreases lines.len() + 3 - i,
{
    if i < 0 || i >= lines.len() {
        Seq::empty()
    } else if !contains_seq(lines[i], content_type_marker()) {
        scan_from(lines, i + 1)
    } else if !contains_seq(lines[i], yaml_marker()) {
        seq![UploadItemView::NotYaml] + scan_from(lines, i + 1)
    } else {
        let file = if i + 2 < lines.len() {
            lines[i + 2]
        } else {
            Seq::<char>::empty()
        };
        seq![file_item(file)] + scan_from(lines, i + 3)
    }
}

/// The items of an upload whose lines are `lines`.
pub open spec fn scan_upload(lines: Seq<Seq<char>>) -> Seq<UploadItemView> {
    scan_from(lines, 0)
}

/// The views of a vector of items.
pub open spec fn items_view(items: Seq<UploadItem>) -> Seq<UploadItemView> {
    items.map_values(|it: UploadItem| it@)
}

/// The texts of a vector of strings.
pub open spec fn strings_view(lines: Seq<String>) -> Seq<Seq<char>> {
    lines.map_values(|l: String| l@)
}

/// The byte sequences of a vector of byte vectors.
pub open spec fn bytes_view(lines: Seq<Vec<u8>>) -> Seq<Seq<u8>> {
    lines.map_values(|l: Vec<u8>| l@)
}

/// A split always has at least one piece.
pub proof fn lemma_split_on_nonempty(s: Seq<u8>, sep: u8)
    ensures
        split_on(s, sep).len() >= 1,
    decreases s.len(),
{
    if s.len() > 0 {
        lemma_split_on_nonempty(s.drop_last(), sep);
    }
}

/// Decodes `bytes` as UTF-8.
///
/// Trusted: the body calls `std::str::from_utf8` and copies the text it
/// returns into a `String`. The contract claims that the call succeeds
/// exactly when the bytes are valid UTF-8 (vstd's `valid_utf8`: well-formed
/// sequences, no overlong encodings, no surrogates, nothing above U+10FFFF),
/// and that the text is then the characters those bytes encode (vstd's
/// `decode_utf8`), which is what the function's documentation promises.
#[verifier::external_body]
fn decode_utf8_line(bytes: &[u8]) -> (r: Option<String>)
    ensures
        r is Some <==> valid_utf8(bytes@),
        r matches Some(s) ==> s@ == decode_utf8(bytes@),
{
    match std::str::from_utf8(bytes) {
        Ok(s) => Some(s.to_string()),
        Err(_) => None,
    }
}

/// Cuts `s` at every `sep` (`<[u8]>::split`).
pub fn split_bytes(s: &[u8], sep: u8) -> (pieces: Vec<Vec<u8>>)
    ensures
        bytes_view(pieces@) == split_on(s@, sep),
{
    let mut pieces: Vec<Vec<u8>> = Vec::new();
    let mut cur: Vec<u8> = Vec::new();
    let mut i: usize = 0;
    while i < s.len()
        invariant
            i <= s.len(),
            bytes_view(pieces@).push(cur@) == split_on(s@.take(i as int), sep),
        decreases s.len() - i,
    {
        let b = s[i];
        let ghost prefix = s@.take(i as int);
        let ghost next = s@.take(i + 1);
        proof {
            assert(next.drop_last() =~= prefix);
            assert(next.last() == b);
            lemma_split_on_nonempty(prefix, sep);
        }
        if b == sep {
            let mut done: Vec<u8> = Vec::new();
            std::mem::swap(&mut done, &mut cur);
            pieces.push(done);
            assert(bytes_view(pieces@).push(cur@) =~= split_on(prefix, sep).push(Seq::<u8>::empty()));
        } else {
            let ghost before = bytes_view(pieces@);
            cur.push(b);
            assert(bytes_view(pieces@) == before);
            let ghost rest = split_on(prefix, sep);
            assert(bytes_view(pieces@).push(cur@) =~= rest.update(rest.len() - 1, rest.last().push(b)));
        }
        i += 1;
    }
    pieces.push(cur);
    assert(s@.take(s.len() as int) =~= s@);
    pieces
}

/// The line `line` without a line feed at its start.
fn strip_leading_line_feed(line: Vec<u8>) -> (r: Vec<u8>)
    ensures
        r@ == strip_line_feed(line@),
{
    let mut v = line;
    if v.len() > 0 && v[0] == LF {
        let ghost before = v@;
        v.remove(0);
        assert(v@ =~= before.drop_first());
    }
    v
}

/// The lines of an upload body as text, or `None` when some line is not
/// UTF-8.
pub fn body_text_lines(body: &[u8]) -> (r: Option<Vec<String>>)
    ensures
        r is Some <==> body_is_text(body@),
        r matches Some(lines) ==> strings_view(lines@) == body_text(body@),
{
    let pieces = split_bytes(body, CR);
    let ghost all = body_lines(body@);
    let mut lines: Vec<String> = Vec::new();
    let mut i: usize = 0;
    let n = pieces.len();
    let mut rest = pieces;
    assert(all.len() == n);
    // `rest` is consumed from the front; keep its original contents in view.
    let ghost orig = bytes_view(rest@);
    while i < n
        invariant
            n == orig.len(),
            orig == split_on(body@, CR),
            all == body_lines(body@),
            i <= n,
            rest@.len() == n - i,
            forall|k: int| 0 <= k < rest@.len() ==> #[trigger] rest@[k]@ == orig[i + k],
            forall|k: int| 0 <= k < i ==> valid_utf8(#[trigger] all[k]),
            strings_view(lines@) == all.take(i as int).map_values(|l: Seq<u8>| decode_utf8(l)),
        decreases n - i,
    {
        let piece = rest.remove(0);
        assert(piece@ == orig[i as int]);
        let stripped = strip_leading_line_feed(piece);
        assert(stripped@ == all[i as int]);
        match decode_utf8_line(stripped.as_slice()) {
            Some(text) => {
                let ghost before = strings_view(lines@);
                lines.push(text);
                assert(strings_view(lines@) =~= before.push(decode_utf8(all[i as int])));
                assert(all.take(i + 1).map_values(|l: Seq<u8>| decode_utf8(l))
                    =~= all.take(i as int).map_values(|l: Seq<u8>| decode_utf8(l)).push(decode_utf8(all[i as int])));
            },
            None => {
                return None;
            },
        }
        i += 1;
    }
    assert(all.take(n as int) =~= all);
    Some(lines)
}

/// The items of an upload whose lines are `lines`.
pub fn scan_lines(lines: &Vec<String>) -> (items: Vec<UploadItem>)
    ensures
        items_view(items@) == scan_upload(strings_view(lines@)),
{
    let ghost text = strings_view(lines@);
    let marker = chars_of("Content-Type");
    let yaml = chars_of("yaml");
    let n = lines.len();
    let mut items: Vec<UploadItem> = Vec::new();
    let mut i: usize = 0;
    while i < n
        invariant
            n == lines@.len(),
            text == strings_view(lines@),
            marker@ == content_type_marker(),
            yaml@ == yaml_marker(),
            i <= n,
            items_view(items@) + scan_from(text, i as int) == scan_upload(text),
        decreases n - i,
    {
        let line = chars_of(lines[i].as_str());
        let ghost before = items_view(items@);
        if !contains_chars(&line, &marker) {
            i += 1;
        } else if !contains_chars(&line, &yaml) {
            items.push(UploadItem::NotYaml);
            assert(items_view(items@) =~= before.push(UploadItemView::NotYaml));
            assert(before + scan_from(text, i as int)
                =~= before.push(UploadItemView::NotYaml) + scan_from(text, i + 1));
            i += 1;
        } else {
            let item = if n - i > 2 {
                if lines[i + 2].as_str().is_empty() {
                    UploadItem::EmptyFile
                } else {
                    UploadItem::Document(lines[i + 2].clone())
                }
            } else {
                UploadItem::EmptyFile
            };
            let ghost file = if i + 2 < n { text[i + 2] } else { Seq::<char>::empty() };
            assert(item@ == file_item(file));
            items.push(item);
            assert(items_view(items@) =~= before.push(file_item(file)));
            assert(before + scan_from(text, i as int)
                =~= before.push(file_item(file)) + scan_from(text, i + 3));
            if n - i > 3 {
                i += 3;
            } else {
                assert(scan_from(text, i + 3) =~= Seq::<UploadItemView>::empty());
                assert(scan_from(text, n as int) =~= Seq::<UploadItemView>::empty());
                i = n;
            }
        }
    }
    assert(scan_from(text, n as int) =~= Seq::<UploadItemView>::empty());
    assert(items_view(items@) + Seq::<UploadItemView>::empty() =~= items_view(items@));
    items
}

/// Reads the parts of an upload body: `NotUtf8` when a line of it is not
/// UTF-8, else the items that the scan of its lines finds.
pub fn process_upload(body: &[u8]) -> (r: UploadOutcome)
    ensures
        r is NotUtf8 <==> !body_is_text(body@),
        r matches UploadOutcome::Items(items) ==> items_view(items@) == scan_upload(body_text(body@)),
{
    match body_text_lines(body) {
        None => UploadOutcome::NotUtf8,
        Some(lines) => UploadOutcome::Items(scan_lines(&lines)),
    }
}

/// `sep` does not occur in `s`.
pub open spec fn free_of(s: Seq<u8>, sep: u8) -> bool {
    forall|j: int| 0 <= j < s.len() ==> s[j] != sep
}

/// No piece of a split holds the separator.
pub proof fn lemma_split_on_pieces_free(s: Seq<u8>, sep: u8)
    ensures
        forall|k: int| 0 <= k < split_on(s, sep).len() ==> free_of(#[trigger] split_on(s, sep)[k], sep),
    decreases s.len(),
{
    if s.len() > 0 {
        lemma_split_on_pieces_free(s.drop_last(), sep);
        lemma_split_on_nonempty(s.drop_last(), sep);
        let rest = split_on(s.drop_last(), sep);
        if s.last() != sep {
            let piece = rest.last().push(s.last());
            assert(free_of(rest[rest.len() - 1], sep));
            assert(free_of(piece, sep));
            assert forall|k: int| 0 <= k < split_on(s, sep).len() implies free_of(
                #[trigger] split_on(s, sep)[k],
                sep,
            ) by {
                if k < rest.len() - 1 {
                    assert(split_on(s, sep)[k] == rest[k]);
                }
            }
        } else {
            assert forall|k: int| 0 <= k < split_on(s, sep).len() implies free_of(
                #[trigger] split_on(s, sep)[k],
                sep,
            ) by {
                if k < rest.len() {
                    assert(split_on(s, sep)[k] == rest[k]);
                }
            }
        }
    }
}

/// A sequence without the separator is a single piece.
pub proof fn lemma_split_on_free(s: Seq<u8>, sep: u8)
    requires
        free_of(s, sep),
    ensures
        split_on(s, sep) == seq![s],
    decreases s.len(),
{
    if s.len() > 0 {
        lemma_split_on_free(s.drop_last(), sep);
        assert(s.drop_last().push(s.last()) =~= s);
        assert(split_on(s, sep) =~= seq![s]);
    } else {
        assert(s =~= Seq::<u8>::empty());
    }
}

/// Splitting at a separator splits the pieces: the pieces of `a`, `sep`, `b`
/// are those of `a` followed by those of `b`.
pub proof fn lemma_split_on_concat(a: Seq<u8>, b: Seq<u8>, sep: u8)
    ensures
        split_on(a + seq![sep] + b, sep) == split_on(a, sep) + split_on(b, sep),
    decreases b.len(),
{
    let s = a + seq![sep] + b;
    if b.len() == 0 {
        assert(s.drop_last() =~= a);
        assert(split_on(s, sep) =~= split_on(a, sep) + split_on(b, sep));
    } else {
        lemma_split_on_concat(a, b.drop_last(), sep);
        assert(s.drop_last() =~= a + seq![sep] + b.drop_last());
        lemma_split_on_nonempty(b.drop_last(), sep);
        let x = split_on(a, sep);
        let y = split_on(b.drop_last(), sep);
        if b.last() == sep {
            assert(split_on(s, sep) =~= x + split_on(b, sep));
        } else {
            assert((x + y).last() == y.last());
            assert((x + y).update((x + y).len() - 1, y.last().push(b.last())) =~= x + y.update(
                y.len() - 1,
                y.last().push(b.last()),
            ));
            assert(split_on(s, sep) =~= x + split_on(b, sep));
        }
    }
}

/// The lines of `a`, a carriage return, and `b` are the lines of `a`
/// followed by the lines of `b`.
pub proof fn lemma_body_lines_concat(a: Seq<u8>, b: Seq<u8>)
    ensures
        body_lines(a + seq![CR] + b) == body_lines(a) + body_lines(b),
{
    lemma_split_on_concat(a, b, CR);
    let f = |l: Seq<u8>| strip_line_feed(l);
    assert((split_on(a, CR) + split_on(b, CR)).map_values(f) =~= split_on(a, CR).map_values(f)
        + split_on(b, CR).map_values(f));
}

/// Reading from position `p.len() + i` of `p + rest` is reading from
/// position `i` of `rest`.
pub proof fn lemma_scan_from_shift(p: Seq<Seq<char>>, rest: Seq<Seq<char>>, i: int)
    requires
        0 <= i,
    ensures
        scan_from(p + rest, p.len() + i) == scan_from(rest, i),
    decreases rest.len() + 3 - i,
{
    let all = p + rest;
    let j = p.len() + i;
    if i < rest.len() {
        assert(all[j] == rest[i]);
        if i + 2 < rest.len() {
            assert(all[j + 2] == rest[i + 2]);
        }
        lemma_scan_from_shift(p, rest, i + 1);
        lemma_scan_from_shift(p, rest, i + 3);
    }
}

/// A line that does not name a content type adds nothing.
pub proof fn lemma_scan_plain_line(line: Seq<char>, rest: Seq<Seq<char>>)
    requires
        !contains_seq(line, content_type_marker()),
    ensures
        scan_upload(seq![line] + rest) == scan_upload(rest),
{
    lemma_scan_from_shift(seq![line], rest, 0);
    assert((seq![line] + rest)[0] == line);
}

/// A part whose content type is not YAML is reported, and reading goes on
/// with the next line.
pub proof fn lemma_scan_not_yaml_part(header: Seq<char>, rest: Seq<Seq<char>>)
    requires
        contains_seq(header, content_type_marker()),
        !contains_seq(header, yaml_marker()),
    ensures
        scan_upload(seq![header] + rest) == seq![UploadItemView::NotYaml] + scan_upload(rest),
{
    lemma_scan_from_shift(seq![header], rest, 0);
    assert((seq![header] + rest)[0] == header);
}

/// A YAML part yields the line after the next one as its file, and reading
/// goes on after the file.
pub proof fn lemma_scan_yaml_part(
    header: Seq<char>,
    blank: Seq<char>,
    file: Seq<char>,
    rest: Seq<Seq<char>>,
)
    requires
        contains_seq(header, content_type_marker()),
        contains_seq(header, yaml_marker()),
    ensures
        scan_upload(seq![header, blank, file] + rest) == seq![file_item(file)] + scan_upload(rest),
{
    let all = seq![header, blank, file] + rest;
    lemma_scan_from_shift(seq![header, blank, file], rest, 0);
    assert(all[0] == header);
    assert(all[2] == file);
}

/// A body made of a header line naming a YAML content type, any line, and a
/// file line (each possibly led by a line feed), separated by carriage
/// returns and followed by a carriage return and any further text, is text,
/// and its upload holds the file line as its first item, followed by what the
/// further text holds.
pub proof fn lemma_upload_yaml_body(header: Seq<u8>, blank: Seq<u8>, file: Seq<u8>, tail: Seq<u8>)
    requires
        free_of(header, CR),
        free_of(blank, CR),
        free_of(file, CR),
        valid_utf8(strip_line_feed(header)),
        valid_utf8(strip_line_feed(blank)),
        valid_utf8(strip_line_feed(file)),
        body_is_text(tail),
        contains_seq(decode_utf8(strip_line_feed(header)), content_type_marker()),
        contains_seq(decode_utf8(strip_line_feed(header)), yaml_marker()),
    ensures
        body_is_text(header + seq![CR] + blank + seq![CR] + file + seq![CR] + tail),
        scan_upload(body_text(header + seq![CR] + blank + seq![CR] + file + seq![CR] + tail))
            == seq![file_item(decode_utf8(strip_line_feed(file)))] + scan_upload(body_text(tail)),
{
    let part3 = file + seq![CR] + tail;
    let part2 = blank + seq![CR] + part3;
    let body = header + seq![CR] + part2;
    assert(body =~= header + seq![CR] + blank + seq![CR] + file + seq![CR] + tail);
    lemma_body_lines_concat(header, part2);
    lemma_body_lines_concat(blank, part3);
    lemma_body_lines_concat(file, tail);
    lemma_split_on_free(header, CR);
    lemma_split_on_free(blank, CR);
    lemma_split_on_free(file, CR);
    let h = strip_line_feed(header);
    let b = strip_line_feed(blank);
    let f = strip_line_feed(file);
    assert(body_lines(header) =~= seq![h]);
    assert(body_lines(blank) =~= seq![b]);
    assert(body_lines(file) =~= seq![f]);
    let lines = seq![h, b, f] + body_lines(tail);
    assert(body_lines(body) =~= lines);
    assert forall|i: int| 0 <= i < body_lines(body).len() implies valid_utf8(
        #[trigger] body_lines(body)[i],
    ) by {
        if i >= 3 {
            assert(body_lines(body)[i] == body_lines(tail)[i - 3]);
        }
    }
    assert(body_text(body) =~= seq![decode_utf8(h), decode_utf8(b), decode_utf8(f)] + body_text(tail));
    lemma_scan_yaml_part(decode_utf8(h), decode_utf8(b), decode_utf8(f), body_text(tail));
}

/// Only one line feed at the very start of a line is dropped; every other
/// byte, interior line feeds among them, is kept.
pub proof fn lemma_strip_line_feed(line: Seq<u8>)
    ensures
        (line.len() == 0 || line[0] != LF) ==> strip_line_feed(line) == line,
        strip_line_feed(seq![LF] + line) == line,
{
    assert((seq![LF] + line).drop_first() =~= line);
}

/// A YAML part hands over its whole file line, unchanged, as the document when
/// that line is not empty, and reports an empty file when it is.
pub proof fn lemma_scan_yaml_document(
    header: Seq<char>,
    blank: Seq<char>,
    file: Seq<char>,
    rest: Seq<Seq<char>>,
)
    requires
        contains_seq(header, content_type_marker()),
        contains_seq(header, yaml_marker()),
    ensures
        file.len() > 0 ==> scan_upload(seq![header, blank, file] + rest) == seq![
            UploadItemView::Document(file),
        ] + scan_upload(rest),
        file.len() == 0 ==> scan_upload(seq![header, blank, file] + rest) == seq![
            UploadItemView::EmptyFile,
        ] + scan_upload(rest),
{
    lemma_scan_yaml_part(header, blank, file, rest);
}

/// An upload with CRLF line ends: a header line naming a YAML content type,
/// any line, and a non-empty file (which may itself hold line feeds, as a
/// multi-line YAML file with Unix line ends does), each ended by CR LF except
/// the file, which a CR ends, followed by any further text. Its first item is
/// the whole file as a document, followed by what the further text holds.
pub proof fn lemma_upload_crlf_yaml_body(header: Seq<u8>, blank: Seq<u8>, file: Seq<u8>, tail: Seq<u8>)
    requires
        free_of(header, CR),
        free_of(blank, CR),
        free_of(file, CR),
        header.len() == 0 || header[0] != LF,
        file.len() > 0,
        valid_utf8(header),
        valid_utf8(blank),
        valid_utf8(file),
        body_is_text(tail),
        contains_seq(decode_utf8(header), content_type_marker()),
        contains_seq(decode_utf8(header), yaml_marker()),
    ensures
        body_is_text(header + seq![CR, LF] + blank + seq![CR, LF] + file + seq![CR] + tail),
        scan_upload(body_text(header + seq![CR, LF] + blank + seq![CR, LF] + file + seq![CR] + tail))
            == seq![UploadItemView::Document(decode_utf8(file))] + scan_upload(body_text(tail)),
{
    let b2 = seq![LF] + blank;
    let f2 = seq![LF] + file;
    assert(header + seq![CR, LF] + blank + seq![CR, LF] + file + seq![CR] + tail =~= header + seq![CR]
        + b2 + seq![CR] + f2 + seq![CR] + tail);
    lemma_strip_line_feed(header);
    lemma_strip_line_feed(blank);
    lemma_strip_line_feed(file);
    assert(free_of(b2, CR)) by {
        assert forall|j: int| 0 <= j < b2.len() implies b2[j] != CR by {
            if j > 0 {
                assert(b2[j] == blank[j - 1]);
            }
        }
    }
    assert(free_of(f2, CR)) by {
        assert forall|j: int| 0 <= j < f2.len() implies f2[j] != CR by {
            if j > 0 {
                assert(f2[j] == file[j - 1]);
            }
        }
    }
    lemma_upload_yaml_body(header, b2, f2, tail);
    assert(decode_utf8(file).len() > 0) by {
        assert(decode_utf8(file) == seq![decode_first_scalar(file) as char] + decode_utf8(
            pop_first_scalar(file),
        ));
    }
}

} // verus!
