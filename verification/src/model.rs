//! Model locations: deciding where a configured model reference points (a
//! local path, the path a `file://` URL names, or the cached copy of a
//! remote model), and naming the cached copy of a downloaded model after its
//! URL (a sanitised file stem and extension around a short SHA-256 digest
//! of the URL).

use sha2::{Digest, Sha256};
use vstd::prelude::*;
use vstd::string::StrSliceExecFns;
use vstd::string::StringExecFns;
use vstd::string::StringSliceAdditionalSpecFns;

verus! {

/// `String::push` appends one character.
pub assume_specification[ String::push ](string: &mut String, ch: char)
    ensures
        final(string)@ == old(string)@.push(ch),
;

/// The position of the last `.` of `s`, if any.
pub open spec fn last_dot(s: Seq<char>) -> Option<int>
    decreases s.len(),
{
    if s.len() == 0 {
        None
    } else if s.last() == '.' {
        Some(s.len() - 1)
    } else {
        last_dot(s.drop_last())
    }
}

proof fn lemma_last_dot_step(s: Seq<char>, i: int)
    requires
        0 <= i < s.len(),
    ensures
        last_dot(s.take(i + 1)) == (if s[i] == '.' { Some(i) } else { last_dot(s.take(i)) }),
{
    assert(s.take(i + 1).drop_last() =~= s.take(i));
}

proof fn lemma_last_dot_range(s: Seq<char>)
    ensures
        last_dot(s) matches Some(k) ==> 0 <= k < s.len(),
    decreases s.len(),
{
    if s.len() > 0 {
        lemma_last_dot_range(s.drop_last());
    }
}

/// A file name's stem and extension: split at the last `.` when it is
/// neither the first nor the last character, else the whole name and no
/// extension.
pub open spec fn split_name_spec(s: Seq<char>) -> (Seq<char>, Option<Seq<char>>) {
    match last_dot(s) {
        Some(k) => if k > 0 && k + 1 < s.len() {
            (s.subrange(0, k), Some(s.subrange(k + 1, s.len() as int)))
        } else {
            (s, None)
        },
        None => (s, None),
    }
}

/// Splits a file name into its stem and extension.
pub fn split_name(name: &str) -> (r: (&str, Option<&str>))
    ensures
        r.0@ == split_name_spec(name@).0,
        match split_name_spec(name@).1 {
            Some(e) => r.1 matches Some(x) && x@ == e,
            None => r.1 is None,
        },
{
    let n = name.unicode_len();
    let mut idx: Option<usize> = None;
    let mut i: usize = 0;
    while i < n
        invariant
            n == name@.len(),
            i <= n,
            match last_dot(name@.take(i as int)) {
                Some(k) => idx == Some(k as usize),
                None => idx is None,
            },
        decreases n - i,
    {
        proof {
            lemma_last_dot_step(name@, i as int);
            lemma_last_dot_range(name@.take(i as int));
        }
        if name.get_char(i) == '.' {
            idx = Some(i);
        }
        i = i + 1;
    }
    proof {
        assert(name@.take(n as int) =~= name@);
        lemma_last_dot_range(name@);
    }
    match idx {
        Some(k) => {
            if k > 0 && k + 1 < n {
                (name.substring_char(0, k), Some(name.substring_char(k + 1, n)))
            } else {
                (name, None)
            }
        },
        None => (name, None),
    }
}

/// An ASCII letter or digit.
pub open spec fn ascii_alnum(c: char) -> bool {
    ('0' <= c && c <= '9') || ('a' <= c && c <= 'z') || ('A' <= c && c <= 'Z')
}

fn is_ascii_alnum(c: char) -> (b: bool)
    ensures
        b == ascii_alnum(c),
{
    ('0' <= c && c <= '9') || ('a' <= c && c <= 'z') || ('A' <= c && c <= 'Z')
}

/// `s` with every character other than an ASCII letter or digit replaced
/// by `-`.
pub open spec fn dashed(s: Seq<char>) -> Seq<char> {
    Seq::new(s.len(), |i: int| if ascii_alnum(s[i]) { s[i] } else { '-' })
}

/// The number of leading `-` of `s`.
pub open spec fn leading_dashes(s: Seq<char>) -> nat
    decreases s.len(),
{
    if s.len() > 0 && s[0] == '-' {
        1 + leading_dashes(s.drop_first())
    } else {
        0
    }
}

/// The number of trailing `-` of `s`.
pub open spec fn trailing_dashes(s: Seq<char>) -> nat
    decreases s.len(),
{
    if s.len() > 0 && s.last() == '-' {
        1 + trailing_dashes(s.drop_last())
    } else {
        0
    }
}

/// `s` without its leading and trailing `-`.
pub open spec fn trim_dashes(s: Seq<char>) -> Seq<char> {
    if leading_dashes(s) >= s.len() {
        Seq::empty()
    } else {
        s.subrange(leading_dashes(s) as int, s.len() - trailing_dashes(s))
    }
}

/// A file name component: ASCII letters and digits kept, anything else
/// turned into `-`, `-` trimmed from both ends; `default` when nothing is
/// left.
pub open spec fn sanitize_spec(value: Seq<char>, default: Seq<char>) -> Seq<char> {
    let t = trim_dashes(dashed(value));
    if t.len() == 0 { default } else { t }
}

proof fn lemma_leading(s: Seq<char>, k: int)
    requires
        0 <= k <= s.len(),
        forall|j: int| 0 <= j < k ==> s[j] == '-',
        k == s.len() || s[k] != '-',
    ensures
        leading_dashes(s) == k,
    decreases k,
{
    if k > 0 {
        lemma_leading(s.drop_first(), k - 1);
    }
}

proof fn lemma_trailing(s: Seq<char>, k: int)
    requires
        0 <= k <= s.len(),
        forall|j: int| s.len() - k <= j < s.len() ==> s[j] == '-',
        k == s.len() || s[s.len() - k - 1] != '-',
    ensures
        trailing_dashes(s) == k,
    decreases k,
{
    if k > 0 {
        lemma_trailing(s.drop_last(), k - 1);
    }
}

/// Makes a string safe as a file name component.
pub fn sanitize_component(value: &str, default: &str) -> (r: String)
    ensures
        r@ == sanitize_spec(value@, default@),
{
    let n = value.unicode_len();
    let mut mapped: Vec<char> = Vec::new();
    let mut i: usize = 0;
    while i < n
        invariant
            n == value@.len(),
            i <= n,
            mapped@ == dashed(value@).take(i as int),
        decreases n - i,
    {
        let c = value.get_char(i);
        let kept = if is_ascii_alnum(c) { c } else { '-' };
        mapped.push(kept);
        proof {
            assert(mapped@ =~= dashed(value@).take(i + 1));
        }
        i = i + 1;
    }
    let ghost m = dashed(value@);
    proof {
        assert(mapped@ =~= m);
    }
    let mut start: usize = 0;
    while start < n && mapped[start] == '-'
        invariant
            n == m.len(),
            mapped@ == m,
            start <= n,
            forall|j: int| 0 <= j < start ==> m[j] == '-',
        decreases n - start,
    {
        start = start + 1;
    }
    proof {
        lemma_leading(m, start as int);
    }
    if start == n {
        return <String as StringExecFns>::from_str(default);
    }
    let mut end: usize = n;
    while end > start && mapped[end - 1] == '-'
        invariant
            n == m.len(),
            mapped@ == m,
            start < n,
            m[start as int] != '-',
            start <= end <= n,
            forall|j: int| end <= j < n ==> m[j] == '-',
        decreases end,
    {
        end = end - 1;
    }
    proof {
        lemma_trailing(m, (n - end) as int);
    }
    let mut out = String::new();
    let mut k = start;
    while k < end
        invariant
            start <= k <= end,
            end <= n,
            n == m.len(),
            mapped@ == m,
            out@ == m.subrange(start as int, k as int),
        decreases end - k,
    {
        out.push(mapped[k]);
        proof {
            assert(out@ =~= m.subrange(start as int, k + 1));
        }
        k = k + 1;
    }
    out
}

/// The SHA-256 digest of some bytes, as the `sha2` crate computes it.
pub uninterp spec fn sha256_digest(data: Seq<u8>) -> Seq<u8>;

/// Hashes bytes with `sha2::Sha256` (`new`, `update`, `finalize`).
/// Claimed: the digest is the named SHA-256 digest of the bytes, 32 bytes
/// long.
#[verifier::external_body]
fn sha256(data: &[u8]) -> (digest: Vec<u8>)
    ensures
        digest@ == sha256_digest(data@),
        digest@.len() == 32,
{
    let mut hasher = Sha256::new();
    hasher.update(data);
    hasher.finalize().to_vec()
}

/// The lowercase hexadecimal digit of `n` (below 16).
pub open spec fn hex_digit(n: int) -> char {
    if n < 10 {
        (48 + n) as char
    } else {
        (87 + n) as char
    }
}

/// Lowercase hexadecimal text of some bytes, high nibble first.
pub open spec fn hex_text(bytes: Seq<u8>) -> Seq<char>
    decreases bytes.len(),
{
    if bytes.len() == 0 {
        Seq::empty()
    } else {
        hex_text(bytes.drop_last()) + seq![hex_digit((bytes.last() / 16) as int), hex_digit((bytes.last() % 16) as int)]
    }
}

/// Encodes bytes with `hex::encode`. Claimed: two lowercase hexadecimal
/// digits per byte, high nibble first, as the crate's lowercase table gives.
#[verifier::external_body]
fn hex_encode(bytes: &[u8]) -> (text: String)
    ensures
        text@ == hex_text(bytes@),
{
    hex::encode(bytes)
}

proof fn lemma_hex_len(bytes: Seq<u8>)
    ensures
        hex_text(bytes).len() == 2 * bytes.len(),
    decreases bytes.len(),
{
    if bytes.len() > 0 {
        lemma_hex_len(bytes.drop_last());
    }
}

/// The text of every segment.
pub open spec fn segment_texts(segments: Seq<String>) -> Seq<Seq<char>> {
    segments.map_values(|x: String| x@)
}

/// The last non-empty segment of a path, if any.
pub open spec fn last_nonempty(segments: Seq<Seq<char>>) -> Option<Seq<char>>
    decreases segments.len(),
{
    if segments.len() == 0 {
        None
    } else if segments.last().len() > 0 {
        Some(segments.last())
    } else {
        last_nonempty(segments.drop_last())
    }
}

/// The path segment a cached model is named after: the last non-empty one,
/// `model.bin` when there is none or no path at all.
pub open spec fn name_segment(segments: Option<Seq<Seq<char>>>) -> Seq<char> {
    match segments {
        Some(s) => match last_nonempty(s) {
            Some(seg) => seg,
            None => "model.bin"@,
        },
        None => "model.bin"@,
    }
}

/// The file name a URL's model is cached under: the sanitised stem and
/// extension of the URL path's last non-empty segment (`model.bin` when
/// there is none, `bin` when it has no extension) around the first twelve
/// hexadecimal digits of the SHA-256 digest of the URL text.
pub open spec fn cache_file_name(url: Seq<u8>, segment: Seq<char>) -> Seq<char> {
    let (stem, ext) = split_name_spec(segment);
    sanitize_spec(stem, "model"@) + "-"@ + hex_text(sha256_digest(url)).subrange(0, 12) + "."@ + match ext {
        Some(e) => sanitize_spec(e, "bin"@),
        None => "bin"@,
    }
}

/// Names the cached copy of the model at the parsed URL `url`.
pub fn build_cache_file_name(url: &UrlParts) -> (name: String)
    ensures
        name@ == cache_file_name(vstd::utf8::encode_utf8(url.text@), name_segment(parts_view(*url).1)),
{
    let digest = sha256(url.text.as_str().as_bytes());
    let hash = hex_encode(&digest);
    proof {
        lemma_hex_len(digest@);
    }
    let short_hash = hash.as_str().substring_char(0, 12);
    let fallback = "model.bin";
    let mut last: Option<usize> = None;
    let segment: &str = match &url.segments {
        Some(list) => {
            let mut i: usize = 0;
            while i < list.len()
                invariant
                    i <= list@.len(),
                    match last_nonempty(segment_texts(list@).take(i as int)) {
                        Some(seg) => last matches Some(k) && k < i && list@[k as int]@ == seg,
                        None => last is None,
                    },
                decreases list@.len() - i,
            {
                proof {
                    assert(segment_texts(list@).take(i + 1).drop_last() =~= segment_texts(list@).take(i as int));
                }
                if list[i].as_str().unicode_len() > 0 {
                    last = Some(i);
                }
                i = i + 1;
            }
            proof {
                assert(segment_texts(list@).take(list@.len() as int) =~= segment_texts(list@));
            }
            match last {
                Some(k) => list[k].as_str(),
                None => fallback,
            }
        },
        None => fallback,
    };
    let (raw_stem, raw_ext) = split_name(segment);
    let stem = sanitize_component(raw_stem, "model");
    let ext = match raw_ext {
        Some(e) => sanitize_component(e, "bin"),
        None => <String as StringExecFns>::from_str("bin"),
    };
    let mut name = stem;
    name.append("-");
    name.append(short_hash);
    name.append(".");
    name.append(ext.as_str());
    name
}

/// What a model reference points at.
#[derive(Clone, Copy, Debug, PartialEq, Eq, Structural)]
pub enum ModelUriKind {
    /// An `http://` or `https://` URL.
    Remote,
    /// A `file://` URL.
    FileUrl,
    /// A path on this machine.
    Local,
}

/// `s` begins with `p`.
pub open spec fn has_prefix(s: Seq<char>, p: Seq<char>) -> bool {
    p.len() <= s.len() && s.subrange(0, p.len() as int) == p
}

fn starts_with(value: &str, prefix: &str) -> (b: bool)
    ensures
        b == has_prefix(value@, prefix@),
{
    let n = value.unicode_len();
    let m = prefix.unicode_len();
    if m > n {
        return false;
    }
    let mut i: usize = 0;
    while i < m
        invariant
            n == value@.len(),
            m == prefix@.len(),
            m <= n,
            i <= m,
            value@.subrange(0, i as int) == prefix@.subrange(0, i as int),
        decreases m - i,
    {
        if value.get_char(i) != prefix.get_char(i) {
            proof {
                assert(value@.subrange(0, m as int)[i as int] != prefix@[i as int]);
            }
            return false;
        }
        proof {
            assert(value@.subrange(0, i + 1) =~= value@.subrange(0, i as int).push(value@[i as int]));
            assert(prefix@.subrange(0, i + 1) =~= prefix@.subrange(0, i as int).push(prefix@[i as int]));
        }
        i = i + 1;
    }
    proof {
        assert(prefix@.subrange(0, m as int) =~= prefix@);
    }
    true
}

/// Classifies a model reference by its scheme.
pub fn classify_model_uri(value: &str) -> (kind: ModelUriKind)
    ensures
        kind == (if has_prefix(value@, "http://"@) || has_prefix(value@, "https://"@) {
            ModelUriKind::Remote
        } else if has_prefix(value@, "file://"@) {
            ModelUriKind::FileUrl
        } else {
            ModelUriKind::Local
        }),
{
    if starts_with(value, "http://") || starts_with(value, "https://") {
        ModelUriKind::Remote
    } else if starts_with(value, "file://") {
        ModelUriKind::FileUrl
    } else {
        ModelUriKind::Local
    }
}


/// Whitespace as `char::is_whitespace` defines it: the characters with the
/// Unicode `White_Space` property.
pub open spec fn white_space(c: char) -> bool {
    ||| ('\u{9}' <= c && c <= '\u{d}')
    ||| c == ' '
    ||| c == '\u{85}'
    ||| c == '\u{a0}'
    ||| c == '\u{1680}'
    ||| ('\u{2000}' <= c && c <= '\u{200a}')
    ||| c == '\u{2028}'
    ||| c == '\u{2029}'
    ||| c == '\u{202f}'
    ||| c == '\u{205f}'
    ||| c == '\u{3000}'
}

fn is_white_space(c: char) -> (b: bool)
    ensures
        b == white_space(c),
{
    ('\u{9}' <= c && c <= '\u{d}') || c == ' ' || c == '\u{85}' || c == '\u{a0}' || c == '\u{1680}' || ('\u{2000}' <= c && c
        <= '\u{200a}') || c == '\u{2028}' || c == '\u{2029}' || c == '\u{202f}' || c == '\u{205f}' || c == '\u{3000}'
}

/// The number of leading whitespace characters of `s`.
pub open spec fn leading_white(s: Seq<char>) -> nat
    decreases s.len(),
{
    if s.len() > 0 && white_space(s[0]) {
        1 + leading_white(s.drop_first())
    } else {
        0
    }
}

/// The number of trailing whitespace characters of `s`.
pub open spec fn trailing_white(s: Seq<char>) -> nat
    decreases s.len(),
{
    if s.len() > 0 && white_space(s.last()) {
        1 + trailing_white(s.drop_last())
    } else {
        0
    }
}

/// `s` without its leading and trailing whitespace, as `str::trim` gives it.
pub open spec fn trim_spec(s: Seq<char>) -> Seq<char> {
    if leading_white(s) >= s.len() {
        Seq::empty()
    } else {
        s.subrange(leading_white(s) as int, s.len() - trailing_white(s))
    }
}

proof fn lemma_leading_white(s: Seq<char>, k: int)
    requires
        0 <= k <= s.len(),
        forall|j: int| 0 <= j < k ==> white_space(#[trigger] s[j]),
        k == s.len() || !white_space(s[k]),
    ensures
        leading_white(s) == k,
    decreases k,
{
    if k > 0 {
        lemma_leading_white(s.drop_first(), k - 1);
    }
}

proof fn lemma_trailing_white(s: Seq<char>, k: int)
    requires
        0 <= k <= s.len(),
        forall|j: int| s.len() - k <= j < s.len() ==> white_space(#[trigger] s[j]),
        k == s.len() || !white_space(s[s.len() - k - 1]),
    ensures
        trailing_white(s) == k,
    decreases k,
{
    if k > 0 {
        lemma_trailing_white(s.drop_last(), k - 1);
    }
}

/// `value` without its leading and trailing whitespace.
pub fn trim_text(value: &str) -> (r: &str)
    ensures
        r@ == trim_spec(value@),
{
    let n = value.unicode_len();
    let mut start: usize = 0;
    while start < n && is_white_space(value.get_char(start))
        invariant
            n == value@.len(),
            start <= n,
            forall|j: int| 0 <= j < start ==> white_space(#[trigger] value@[j]),
        decreases n - start,
    {
        start = start + 1;
    }
    proof {
        lemma_leading_white(value@, start as int);
    }
    if start == n {
        return value.substring_char(n, n);
    }
    let mut end: usize = n;
    while end > start && is_white_space(value.get_char(end - 1))
        invariant
            n == value@.len(),
            start < n,
            !white_space(value@[start as int]),
            start <= end <= n,
            forall|j: int| end <= j < n ==> white_space(#[trigger] value@[j]),
        decreases end,
    {
        end = end - 1;
    }
    proof {
        lemma_trailing_white(value@, (n - end) as int);
    }
    value.substring_char(start, end)
}

/// What the logic reads of a parsed URL: its serialisation and its path
/// segments (none for a URL that cannot be a base).
pub struct UrlParts {
    pub text: String,
    pub segments: Option<Vec<String>>,
}

/// The parts of a URL by their views.
pub open spec fn parts_view(p: UrlParts) -> (Seq<char>, Option<Seq<Seq<char>>>) {
    (p.text@, match p.segments {
        Some(v) => Some(segment_texts(v@)),
        None => None,
    })
}

/// What parsing `value` as a URL gives, by the parts the logic reads: none
/// when it is not a valid URL.
pub uninterp spec fn parsed_url(value: Seq<char>) -> Option<(Seq<char>, Option<Seq<Seq<char>>>)>;

/// Parses `value` with `reqwest::Url::parse` (the `url` crate's parser) and
/// reads the result with `as_str` and `path_segments`. Claimed: the result
/// is a function of `value` alone, named `parsed_url`; nothing more is
/// stated of the parser.
#[verifier::external_body]
fn parse_url(value: &str) -> (r: Option<UrlParts>)
    ensures
        match r {
            Some(p) => parsed_url(value@) == Some(parts_view(p)),
            None => parsed_url(value@) is None,
        },
{
    let url = reqwest::Url::parse(value).ok()?;
    Some(UrlParts {
        text: url.as_str().to_string(),
        segments: url.path_segments().map(|parts| parts.map(str::to_string).collect()),
    })
}

/// The local path a `file` URL names, with `reqwest::Url::parse` and
/// `Url::to_file_path`, as bytes; none when `value` does not parse or the
/// URL names no local path (a host other than `localhost`, a NUL byte).
/// Claimed: none when `value` is not a valid URL. The path depends on the
/// platform's path rules, so nothing more is stated of it.
#[verifier::external_body]
fn url_file_path(value: &str) -> (r: Option<Vec<u8>>)
    ensures
        parsed_url(value@) is None ==> r is None,
{
    let url = reqwest::Url::parse(value).ok()?;
    url.to_file_path().ok().map(|path| path.into_os_string().into_encoded_bytes())
}

/// The source a parsed remote URL gives: the URL's serialisation, and the
/// file its model is cached under.
pub fn remote_source(parts: UrlParts) -> (r: ModelSource)
    ensures
        r matches ModelSource::Remote { url, file_name } && url@ == parts.text@ && file_name@ == cache_file_name(
            vstd::utf8::encode_utf8(parts.text@),
            name_segment(parts_view(parts).1),
        ),
{
    let file_name = build_cache_file_name(&parts);
    ModelSource::Remote { url: parts.text, file_name }
}

/// The source a parsed `file://` reference `value` gives, from the local
/// path its URL names (`path`, as `url_file_path` reads it).
pub fn file_url_source(value: &str, path: Option<Vec<u8>>) -> (r: Result<Option<ModelSource>, ModelUriError>)
    ensures
        match path {
            None => r matches Err(ModelUriError::InvalidFileUrl { value: v }) && v@ == value@,
            Some(b) => r matches Ok(Some(ModelSource::File { path: p })) && p@ == b@,
        },
{
    match path {
        None => Err(ModelUriError::InvalidFileUrl { value: <String as StringExecFns>::from_str(value) }),
        Some(b) => Ok(Some(ModelSource::File { path: b })),
    }
}

/// Where a configured model is found.
#[derive(Clone, Debug, PartialEq, Eq)]
pub enum ModelSource {
    /// A path as written; a relative one is taken from the configuration
    /// directory when `from_config` holds, from the working directory
    /// otherwise.
    Local { path: String, from_config: bool },
    /// The local path a `file://` URL names, as bytes.
    File { path: Vec<u8> },
    /// A remote model at `url` (its serialisation), cached under
    /// `file_name`.
    Remote { url: String, file_name: String },
}

/// A model reference that names no model.
#[derive(Clone, Debug, PartialEq, Eq)]
pub enum ModelUriError {
    /// An `http(s)://` or `file://` reference that is not a valid URL.
    InvalidUrl { value: String },
    /// A `file://` URL that names no local path.
    InvalidFileUrl { value: String },
}

/// Where the model reference `v` (trimmed, not empty) points, for a
/// reference given on the command line (`from_cli`) or in the
/// configuration file; a parsed `file://` reference gives the path its URL
/// names, or is refused when it names none (see `file_url_source`).
pub open spec fn model_source_ok(v: Seq<char>, from_cli: bool, r: Result<Option<ModelSource>, ModelUriError>) -> bool {
    if has_prefix(v, "http://"@) || has_prefix(v, "https://"@) {
        match parsed_url(v) {
            None => r matches Err(ModelUriError::InvalidUrl { value }) && value@ == v,
            Some(p) => r matches Ok(Some(ModelSource::Remote { url, file_name })) && url@ == p.0 && file_name@
                == cache_file_name(vstd::utf8::encode_utf8(p.0), name_segment(p.1)),
        }
    } else if has_prefix(v, "file://"@) {
        match parsed_url(v) {
            None => r matches Err(ModelUriError::InvalidUrl { value }) && value@ == v,
            Some(p) => (r matches Err(ModelUriError::InvalidFileUrl { value }) && value@ == v) || r matches Ok(
                Some(ModelSource::File { .. }),
            ),
        }
    } else {
        r matches Ok(Some(ModelSource::Local { path, from_config })) && path@ == v && from_config == !from_cli
    }
}

/// Decides where a configured model reference points: nothing for a
/// missing or blank reference; a remote URL's cached file; the path a
/// `file://` URL names; or a local path, taken from the configuration
/// directory unless the reference came from the command line.
pub fn locate_model(model: Option<&str>, from_cli: bool) -> (r: Result<Option<ModelSource>, ModelUriError>)
    ensures
        match model {
            None => r == Ok::<Option<ModelSource>, ModelUriError>(None),
            Some(m) => if trim_spec(m@).len() == 0 {
                r == Ok::<Option<ModelSource>, ModelUriError>(None)
            } else {
                model_source_ok(trim_spec(m@), from_cli, r)
            },
        },
{
    let raw = match model {
        Some(m) => m,
        None => return Ok(None),
    };
    let value = trim_text(raw);
    if value.unicode_len() == 0 {
        return Ok(None);
    }
    match classify_model_uri(value) {
        ModelUriKind::Local => Ok(Some(ModelSource::Local { path: <String as StringExecFns>::from_str(value), from_config: !from_cli })),
        ModelUriKind::Remote => match parse_url(value) {
            None => Err(ModelUriError::InvalidUrl { value: <String as StringExecFns>::from_str(value) }),
            Some(parts) => Ok(Some(remote_source(parts))),
        },
        ModelUriKind::FileUrl => match parse_url(value) {
            None => Err(ModelUriError::InvalidUrl { value: <String as StringExecFns>::from_str(value) }),
            Some(_) => file_url_source(value, url_file_path(value)),
        },
    }
}

} // verus!
