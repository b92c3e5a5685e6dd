//! The names and the metadata files of Python wheels.

use crate::strings::push_char;
use vstd::prelude::*;
use vstd::string::StringExecFns;

verus! {

/// The parts of a wheel's file name.
#[derive(Debug, Clone)]
pub struct Tag {
    pub abi_tag: Option<String>,
    pub build_tag: Option<String>,
    pub distribution: String,
    pub platform: Option<String>,
    pub python_tag: String,
    pub version: String,
}

/// The text of an optional part, or `fallback` where there is none.
pub open spec fn part_or(part: Option<String>, fallback: Seq<char>) -> Seq<char> {
    match part {
        Some(text) => text@,
        None => fallback,
    }
}

impl Tag {
    pub fn new(
        abi_tag: Option<String>,
        build_tag: Option<String>,
        distribution: String,
        platform: Option<String>,
        python_tag: String,
        version: String,
    ) -> (r: Tag)
        ensures
            r.abi_tag == abi_tag,
            r.build_tag == build_tag,
            r.distribution == distribution,
            r.platform == platform,
            r.python_tag == python_tag,
            r.version == version,
    {
        Tag { abi_tag, build_tag, distribution, platform, python_tag, version }
    }

    /// The file name that the tag stands for:
    /// `{distribution}-{version}[-{build}]-{python}-{abi}-{platform}.whl`,
    /// with `none` for a missing ABI and `any` for a missing platform.
    pub open spec fn file_name(self) -> Seq<char> {
        self.distribution@ + "-"@ + self.version@ + (match self.build_tag {
            Some(build) => "-"@ + build@,
            None => Seq::<char>::empty(),
        }) + "-"@ + self.python_tag@ + "-"@ + part_or(self.abi_tag, "none"@) + "-"@ + part_or(
            self.platform,
            "any"@,
        ) + ".whl"@
    }

    /// The file name of the wheel.
    pub fn to_string(&self) -> (r: String)
        ensures
            r@ == self.file_name(),
    {
        let mut name: String = String::from_str(self.distribution.as_str());
        name.append("-");
        name.append(self.version.as_str());
        match &self.build_tag {
            Some(build) => {
                name.append("-");
                name.append(build.as_str());
            },
            None => {
                assert(name@ + Seq::<char>::empty() =~= name@);
            },
        }
        name.append("-");
        name.append(self.python_tag.as_str());
        name.append("-");
        match &self.abi_tag {
            Some(abi) => name.append(abi.as_str()),
            None => name.append("none"),
        }
        name.append("-");
        match &self.platform {
            Some(platform) => name.append(platform.as_str()),
            None => name.append("any"),
        }
        name.append(".whl");
        proof {
            assert(name@ =~= self.file_name());
        }
        name
    }
}

/// Whether a pattern is a regular expression: whether `regex::Regex::new`
/// accepts it.
pub uninterp spec fn regex_compiles(pattern: Seq<char>) -> bool;

/// A text in which the matches of a regular expression are replaced, as
/// `regex::Regex::replace_all` gives it for the expression of the pattern.
pub uninterp spec fn regex_replaced(
    pattern: Seq<char>,
    text: Seq<char>,
    replacement: Seq<char>,
) -> Seq<char>;

/// The lines of a text wrapped to a width, as `textwrap::wrap` gives them
/// with an empty indent for the first line and the given one for the
/// others.
pub uninterp spec fn wrapped_lines(text: Seq<char>, width: usize, indent: Seq<char>) -> Seq<
    Seq<char>,
>;

/// The SHA-256 digest of bytes.
pub uninterp spec fn sha256_of(bytes: Seq<u8>) -> Seq<u8>;

/// Bytes in base 64 with the alphabet for URLs and without padding.
pub uninterp spec fn base64_of(bytes: Seq<u8>) -> Seq<char>;

/// `regex::Regex::new`, and `Regex::replace_all` on what it gives: `None`
/// where the pattern is no regular expression, else the text with every
/// match that does not overlap an earlier one replaced.
#[verifier::external_body]
fn replace_all(pattern: &str, text: &str, replacement: &str) -> (r: Option<String>)
    ensures
        r is Some <==> regex_compiles(pattern@),
        r is Some ==> r->0@ == regex_replaced(pattern@, text@, replacement@),
{
    match regex::Regex::new(pattern) {
        Ok(expression) => Some(expression.replace_all(text, replacement).to_string()),
        Err(_) => None,
    }
}

/// `textwrap::wrap` with `textwrap::Options::new(width)`, an empty
/// `initial_indent` and the given `subsequent_indent`.
#[verifier::external_body]
fn wrap(text: &str, width: usize, indent: &str) -> (r: Vec<String>)
    ensures
        r@.len() == wrapped_lines(text@, width, indent@).len(),
        forall|i: int| 0 <= i < r@.len() ==> (#[trigger] r@[i])@ == wrapped_lines(text@, width, indent@)[i],
{
    let options = textwrap::Options::new(width).initial_indent("").subsequent_indent(indent);
    textwrap::wrap(text, options).into_iter().map(|line| line.into_owned()).collect()
}

/// `sha2::Sha256::digest`: the 32 bytes of the digest.
#[verifier::external_body]
fn sha256(bytes: &[u8]) -> (r: Vec<u8>)
    ensures
        r@ == sha256_of(bytes@),
        r@.len() == 32,
{
    <sha2::Sha256 as sha2::Digest>::digest(bytes).to_vec()
}

/// `base64::encode_config` with `base64::URL_SAFE_NO_PAD`. It panics
/// where the length of its result overflows, which 32 bytes are far from.
#[verifier::external_body]
fn base64_url(bytes: &[u8]) -> (r: String)
    requires
        bytes@.len() <= 32,
    ensures
        r@ == base64_of(bytes@),
{
    base64::encode_config(bytes, base64::URL_SAFE_NO_PAD)
}

/// The digest of a file's contents as the record of a wheel names it.
pub fn content_hash(contents: &[u8]) -> (r: String)
    ensures
        r@ == base64_of(sha256_of(contents@)),
{
    let digest: Vec<u8> = sha256(contents);
    base64_url(digest.as_slice())
}

/// A header value folded to lines of at most 78 characters: the lines are
/// joined by a carriage return and a line feed, every line but the first
/// begins with a tab, and an empty line is a tab.
pub open spec fn folded(lines: Seq<Seq<char>>) -> Seq<char>
    decreases lines.len(),
{
    if lines.len() == 0 {
        Seq::empty()
    } else {
        let line = if lines.last().len() == 0 {
            seq!['\t']
        } else {
            lines.last()
        };
        if lines.len() == 1 {
            line
        } else {
            folded(lines.drop_last()) + seq!['\r', '\n'] + line
        }
    }
}

/// Folds a header value that is too long for one line.
pub fn fold_header(text: &str) -> (r: String)
    ensures
        r@ == folded(wrapped_lines(text@, 78, seq!['\t'])),
{
    proof {
        reveal_strlit("\t");
    }
    assert("\t"@ =~= seq!['\t']);
    let lines: Vec<String> = wrap(text, 78, "\t");
    let ghost wrapped = wrapped_lines(text@, 78, seq!['\t']);
    let mut result: String = String::new();
    let mut i: usize = 0;
    while i < lines.len()
        invariant
            i <= lines@.len(),
            lines@.len() == wrapped.len(),
            forall|k: int| 0 <= k < lines@.len() ==> (#[trigger] lines@[k])@ == wrapped[k],
            result@ == folded(wrapped.take(i as int)),
        decreases lines@.len() - i,
    {
        proof {
            let next = wrapped.take(i as int + 1);
            assert(next.drop_last() =~= wrapped.take(i as int));
            assert(next.last() == wrapped[i as int]);
            assert(lines@[i as int]@ == wrapped[i as int]);
        }
        if i > 0 {
            push_char(&mut result, '\r');
            push_char(&mut result, '\n');
        }
        let line: &String = &lines[i];
        if line.as_str().unicode_len() == 0 {
            push_char(&mut result, '\t');
        } else {
            result.append(line.as_str());
        }
        proof {
            assert(result@ =~= folded(wrapped.take(i as int + 1)));
        }
        i += 1;
    }
    proof {
        assert(wrapped.take(i as int) =~= wrapped);
    }
    result
}

/// The metadata of a distribution, version 2.1.
#[derive(Debug, Clone)]
pub struct Metadata21 {
    pub metadata_version: String,
    pub name: String,
    pub version: String,
    pub platform: Vec<String>,
    pub supported_platform: Vec<String>,
    pub summary: Option<String>,
    pub description: Option<String>,
    pub description_content_type: Option<String>,
    pub keywords: Option<String>,
    pub home_page: Option<String>,
    pub download_url: Option<String>,
    pub author: Option<String>,
    pub author_email: Option<String>,
    pub maintainer: Option<String>,
    pub maintainer_email: Option<String>,
    pub license: Option<String>,
    pub classifiers: Vec<String>,
    pub requires_dist: Vec<String>,
    pub provides_dist: Vec<String>,
    pub obsoletes_dist: Vec<String>,
    pub requires_python: Option<String>,
    pub requires_external: Vec<String>,
    pub project_url: Vec<(String, String)>,
    pub provides_extra: Vec<String>,
}

/// The texts of fields.
pub open spec fn fields_of(fields: Seq<(String, String)>) -> Seq<(Seq<char>, Seq<char>)> {
    fields.map_values(|field: (String, String)| (field.0@, field.1@))
}

/// One field of the given name for every value.
pub open spec fn repeated(name: Seq<char>, values: Seq<String>) -> Seq<(Seq<char>, Seq<char>)> {
    values.map_values(|value: String| (name, value@))
}

/// One field of the given name where there is a value.
pub open spec fn optional(name: Seq<char>, value: Option<Seq<char>>) -> Seq<
    (Seq<char>, Seq<char>),
> {
    match value {
        Some(text) => seq![(name, text)],
        None => Seq::empty(),
    }
}

/// One `Project-URL` field for every pair of a label and an address.
pub open spec fn project_urls(urls: Seq<(String, String)>) -> Seq<(Seq<char>, Seq<char>)> {
    urls.map_values(|url: (String, String)| ("Project-URL"@, url.0@ + ", "@ + url.1@))
}

/// The text of an optional string.
pub open spec fn text_of(value: Option<String>) -> Option<Seq<char>> {
    match value {
        Some(text) => Some(text@),
        None => None,
    }
}

fn add_vec(fields: &mut Vec<(String, String)>, name: &str, values: &Vec<String>)
    ensures
        fields_of(final(fields)@) == fields_of(old(fields)@) + repeated(name@, values@),
{
    let ghost before = fields_of(fields@);
    let mut i: usize = 0;
    proof {
        assert(before + repeated(name@, values@.take(0)) =~= before);
    }
    while i < values.len()
        invariant
            i <= values@.len(),
            fields_of(fields@) == before + repeated(name@, values@.take(i as int)),
        decreases values@.len() - i,
    {
        let ghost earlier = fields@;
        let value: String = values[i].clone();
        fields.push((String::from_str(name), value));
        proof {
            let target = before + repeated(name@, values@.take(i as int + 1));
            let so_far = before + repeated(name@, values@.take(i as int));
            assert(fields_of(earlier) == so_far);
            assert(fields_of(fields@).len() == target.len());
            assert forall|k: int| 0 <= k < target.len() implies fields_of(fields@)[k] == target[k] by {
                if k < earlier.len() {
                    assert(fields@[k] == earlier[k]);
                    assert(fields_of(earlier)[k] == so_far[k]);
                } else {
                    assert(values@.take(i as int + 1)[i as int] == values@[i as int]);
                }
            }
            assert(fields_of(fields@) =~= target);
        }
        i += 1;
    }
    proof {
        assert(values@.take(i as int) =~= values@);
    }
}

fn add_option(fields: &mut Vec<(String, String)>, name: &str, value: &Option<String>)
    ensures
        fields_of(final(fields)@) == fields_of(old(fields)@) + optional(name@, text_of(*value)),
{
    let ghost before = fields_of(fields@);
    match value {
        Some(text) => {
            fields.push((String::from_str(name), text.clone()));
            proof {
                assert(fields_of(fields@) =~= before + optional(name@, text_of(*value)));
            }
        },
        None => {
            proof {
                assert(before + optional(name@, text_of(*value)) =~= before);
            }
        },
    }
}

impl Metadata21 {
    /// The version of the metadata where a file names none.
    pub fn metadata_version() -> (r: String)
        ensures
            r@ == "2.1"@,
    {
        String::from_str("2.1")
    }

    /// The version with every run of characters that are neither word
    /// characters nor digits nor full stops replaced by an underscore.
    pub open spec fn version_escaped(self) -> Seq<char> {
        if regex_compiles("[^\\w\\d.]+"@) {
            regex_replaced("[^\\w\\d.]+"@, self.version@, "_"@)
        } else {
            self.version@
        }
    }

    pub fn get_version_escaped(&self) -> (r: String)
        ensures
            r@ == self.version_escaped(),
    {
        match replace_all("[^\\w\\d.]+", self.version.as_str(), "_") {
            Some(escaped) => escaped,
            None => self.version.clone(),
        }
    }

    /// The license, folded as a header value.
    pub open spec fn license_folded(self) -> Option<Seq<char>> {
        match self.license {
            Some(license) => Some(folded(wrapped_lines(license@, 78, seq!['\t']))),
            None => None,
        }
    }

    /// The fields of the metadata in the order in which they are written.
    pub open spec fn fields(self) -> Seq<(Seq<char>, Seq<char>)> {
        seq![
            ("Metadata-Version"@, self.metadata_version@),
            ("Name"@, self.name@),
            ("Version"@, self.version_escaped()),
        ] + repeated("Platform"@, self.platform@) + repeated(
            "Supported-Platform"@,
            self.supported_platform@,
        ) + repeated("Classifier"@, self.classifiers@) + repeated(
            "Requires-Dist"@,
            self.requires_dist@,
        ) + repeated("Provides-Dist"@, self.provides_dist@) + repeated(
            "Obsoletes-Dist"@,
            self.obsoletes_dist@,
        ) + repeated("Requires-External"@, self.requires_external@) + repeated(
            "Provides-Extra"@,
            self.provides_extra@,
        ) + optional("Summary"@, text_of(self.summary)) + optional(
            "Keywords"@,
            text_of(self.keywords),
        ) + optional("Home-Page"@, text_of(self.home_page)) + optional(
            "Download-URL"@,
            text_of(self.download_url),
        ) + optional("Author"@, text_of(self.author)) + optional(
            "Author-email"@,
            text_of(self.author_email),
        ) + optional("Maintainer"@, text_of(self.maintainer)) + optional(
            "Maintainer-email"@,
            text_of(self.maintainer_email),
        ) + optional("License"@, self.license_folded()) + optional(
            "Requires-Python"@,
            text_of(self.requires_python),
        ) + optional("Description-Content-Type"@, text_of(self.description_content_type))
            + project_urls(self.project_url@) + optional("Description"@, text_of(self.description))
    }

    /// The fields of the metadata in the order in which they are written.
    #[verifier::rlimit(40)]
    pub fn to_vec(&self) -> (r: Vec<(String, String)>)
        ensures
            fields_of(r@) == self.fields(),
    {
        let mut fields: Vec<(String, String)> = Vec::new();
        fields.push((String::from_str("Metadata-Version"), self.metadata_version.clone()));
        fields.push((String::from_str("Name"), self.name.clone()));
        fields.push((String::from_str("Version"), self.get_version_escaped()));
        proof {
            assert(fields_of(fields@) =~= seq![
                ("Metadata-Version"@, self.metadata_version@),
                ("Name"@, self.name@),
                ("Version"@, self.version_escaped()),
            ]);
        }
        add_vec(&mut fields, "Platform", &self.platform);
        add_vec(&mut fields, "Supported-Platform", &self.supported_platform);
        add_vec(&mut fields, "Classifier", &self.classifiers);
        add_vec(&mut fields, "Requires-Dist", &self.requires_dist);
        add_vec(&mut fields, "Provides-Dist", &self.provides_dist);
        add_vec(&mut fields, "Obsoletes-Dist", &self.obsoletes_dist);
        add_vec(&mut fields, "Requires-External", &self.requires_external);
        add_vec(&mut fields, "Provides-Extra", &self.provides_extra);
        add_option(&mut fields, "Summary", &self.summary);
        add_option(&mut fields, "Keywords", &self.keywords);
        add_option(&mut fields, "Home-Page", &self.home_page);
        add_option(&mut fields, "Download-URL", &self.download_url);
        add_option(&mut fields, "Author", &self.author);
        add_option(&mut fields, "Author-email", &self.author_email);
        add_option(&mut fields, "Maintainer", &self.maintainer);
        add_option(&mut fields, "Maintainer-email", &self.maintainer_email);
        let license: Option<String> = match &self.license {
            Some(license) => Some(fold_header(license.as_str())),
            None => None,
        };
        add_option(&mut fields, "License", &license);
        add_option(&mut fields, "Requires-Python", &self.requires_python);
        add_option(&mut fields, "Description-Content-Type", &self.description_content_type);
        let ghost before = fields_of(fields@);
        let mut i: usize = 0;
        proof {
            assert(before + project_urls(self.project_url@.take(0)) =~= before);
        }
        while i < self.project_url.len()
            invariant
                i <= self.project_url@.len(),
                fields_of(fields@) == before + project_urls(self.project_url@.take(i as int)),
            decreases self.project_url@.len() - i,
        {
            let ghost earlier = fields@;
            let mut value: String = self.project_url[i].0.clone();
            value.append(", ");
            value.append(self.project_url[i].1.as_str());
            fields.push((String::from_str("Project-URL"), value));
            proof {
                let target = before + project_urls(self.project_url@.take(i as int + 1));
                let so_far = before + project_urls(self.project_url@.take(i as int));
                assert(fields_of(earlier) == so_far);
                assert(fields@.len() == earlier.len() + 1);
                assert(so_far.len() == before.len() + i);
                assert(self.project_url@.take(i as int + 1).len() == i + 1);
                assert(project_urls(self.project_url@.take(i as int + 1)).len() == i + 1);
                assert(fields_of(fields@).len() == target.len());
                assert forall|k: int| 0 <= k < target.len() implies fields_of(fields@)[k]
                    == target[k] by {
                    if k < earlier.len() {
                        assert(fields@[k] == earlier[k]);
                        assert(fields_of(earlier)[k] == so_far[k]);
                    } else {
                        assert(self.project_url@.take(i as int + 1)[i as int]
                            == self.project_url@[i as int]);
                    }
                }
                assert(fields_of(fields@) =~= target);
            }
            i += 1;
        }
        proof {
            assert(self.project_url@.take(i as int) =~= self.project_url@);
        }
        add_option(&mut fields, "Description", &self.description);
        fields
    }
}

/// The header lines of fields: `name: value` and a line feed for each.
pub open spec fn header_text(fields: Seq<(Seq<char>, Seq<char>)>) -> Seq<char>
    decreases fields.len(),
{
    if fields.len() == 0 {
        Seq::empty()
    } else {
        header_text(fields.drop_last()) + fields.last().0 + ": "@ + fields.last().1 + "\n"@
    }
}

/// The contents of a metadata file: the header lines of the fields and,
/// where the last field is the description, the description as the body
/// behind an empty line instead of a header line.
pub open spec fn file_contents(fields: Seq<(Seq<char>, Seq<char>)>) -> Seq<char> {
    if fields.len() > 0 && fields.last().0 == "Description"@ {
        header_text(fields.drop_last()) + "\n"@ + fields.last().1 + "\n"@
    } else {
        header_text(fields)
    }
}

impl Metadata21 {
    /// The contents of the metadata file.
    pub fn to_file_contents(&self) -> (r: String)
        ensures
            r@ == file_contents(self.fields()),
    {
        let fields: Vec<(String, String)> = self.to_vec();
        let ghost texts = fields_of(fields@);
        let n: usize = fields.len();
        let has_body: bool = n > 0 && fields[n - 1].0 == String::from_str("Description");
        let n_headers: usize = if has_body {
            n - 1
        } else {
            n
        };
        proof {
            if n > 0 {
                assert(texts[n - 1] == (fields@[n - 1].0@, fields@[n - 1].1@));
            }
        }
        let mut out: String = String::new();
        let mut i: usize = 0;
        while i < n_headers
            invariant
                i <= n_headers <= n,
                n == fields@.len(),
                texts == fields_of(fields@),
                out@ == header_text(texts.take(i as int)),
            decreases n_headers - i,
        {
            proof {
                let next = texts.take(i as int + 1);
                assert(next.drop_last() =~= texts.take(i as int));
                assert(next.last() == texts[i as int]);
                assert(texts[i as int] == (fields@[i as int].0@, fields@[i as int].1@));
            }
            out.append(fields[i].0.as_str());
            out.append(": ");
            out.append(fields[i].1.as_str());
            out.append("\n");
            i += 1;
        }
        if has_body {
            proof {
                assert(texts.take(n - 1) =~= texts.drop_last());
            }
            out.append("\n");
            out.append(fields[n - 1].1.as_str());
            out.append("\n");
        } else {
            proof {
                assert(texts.take(n as int) =~= texts);
            }
        }
        out
    }
}

/// The character of a decimal digit.
pub open spec fn digit_char(digit: nat) -> char {
    ((0x30 + digit) as u8) as char
}

/// A number in decimal digits.
pub open spec fn decimal(n: nat) -> Seq<char>
    decreases n,
{
    if n < 10 {
        seq![digit_char(n)]
    } else {
        decimal(n / 10).push(digit_char(n % 10))
    }
}

/// Writes a number in decimal digits at the end of a text.
pub fn push_decimal(text: &mut String, n: usize)
    ensures
        final(text)@ == old(text)@ + decimal(n as nat),
    decreases n,
{
    if n >= 10 {
        push_decimal(text, n / 10);
    }
    let digit: u8 = 0x30 + (n % 10) as u8;
    push_char(text, digit as char);
    proof {
        if n < 10 {
            assert(old(text)@.push(digit_char(n as nat)) =~= old(text)@ + decimal(n as nat));
        } else {
            assert((old(text)@ + decimal((n / 10) as nat)).push(digit_char((n % 10) as nat))
                =~= old(text)@ + decimal(n as nat));
        }
    }
}

/// One file of a wheel as its record lists it.
#[derive(Debug, Clone)]
pub struct RecordEntry {
    pub relative_path: String,
    pub hash: String,
    pub size: usize,
}

impl RecordEntry {
    pub fn new(relative_path: String, hash: String, size: usize) -> (r: RecordEntry)
        ensures
            r.relative_path == relative_path,
            r.hash == hash,
            r.size == size,
    {
        RecordEntry { relative_path, hash, size }
    }

    /// The entry of a file with the given contents.
    pub fn of_file(relative_path: String, contents: &[u8]) -> (r: RecordEntry)
        ensures
            r.relative_path == relative_path,
            r.hash@ == base64_of(sha256_of(contents@)),
            r.size == contents@.len(),
    {
        RecordEntry { relative_path, hash: content_hash(contents), size: contents.len() }
    }

    /// The line of the entry: `path,sha256-hash,size` and a line feed.
    pub open spec fn line(self) -> Seq<char> {
        self.relative_path@ + ",sha256-"@ + self.hash@ + ","@ + decimal(self.size as nat) + "\n"@
    }

    /// The line of the entry in the record of a wheel.
    pub fn to_line(&self) -> (r: String)
        ensures
            r@ == self.line(),
    {
        let mut line: String = String::from_str(self.relative_path.as_str());
        line.append(",sha256-");
        line.append(self.hash.as_str());
        line.append(",");
        push_decimal(&mut line, self.size);
        line.append("\n");
        line
    }
}

/// What the `dist-info` directory of a wheel is written from.
#[derive(Debug, Clone)]
pub struct WheelDistInfo {
    pub metadata: Metadata21,
    pub tag: Tag,
}

impl WheelDistInfo {
    pub fn new(metadata: Metadata21, tag: Tag) -> (r: WheelDistInfo)
        ensures
            r.metadata == metadata,
            r.tag == tag,
    {
        WheelDistInfo { metadata, tag }
    }

    /// The text of the license, or `Unlicensed` where the metadata names
    /// none.
    pub fn license(&self) -> (r: String)
        ensures
            r@ == part_or(self.metadata.license, "Unlicensed"@),
    {
        match &self.metadata.license {
            Some(license) => license.clone(),
            None => String::from_str("Unlicensed"),
        }
    }

    /// The contents of the `WHEEL` file.
    pub open spec fn wheel_file_contents(self, generator: Seq<char>, version: Seq<char>) -> Seq<
        char,
    > {
        "Wheel-Version: 1.0\nGenerator: "@ + generator + " ("@ + version
            + ")\nRoot-Is-Purelib: false\nTag: "@ + self.tag.file_name() + "\n"@
    }

    /// The contents of the `WHEEL` file, which names the program that
    /// wrote the wheel and its version.
    pub fn wheel_file(&self, generator: &str, version: &str) -> (r: String)
        ensures
            r@ == self.wheel_file_contents(generator@, version@),
    {
        let mut contents: String = String::from_str("Wheel-Version: 1.0\nGenerator: ");
        contents.append(generator);
        contents.append(" (");
        contents.append(version);
        contents.append(")\nRoot-Is-Purelib: false\nTag: ");
        contents.append(self.tag.to_string().as_str());
        contents.append("\n");
        contents
    }

    /// The file name of the wheel.
    pub fn wheel_name(&self) -> (r: String)
        ensures
            r@ == self.tag.file_name(),
    {
        self.tag.to_string()
    }
}

/// What a wheel is written from: the parts of its name, the file of its
/// metadata and the directories of its packages.
#[derive(Debug, Clone)]
pub struct WheelWriter {
    pub abi: Option<String>,
    pub build_tag: Option<String>,
    pub distribution: String,
    pub metadata_toml_path: String,
    pub packages: Vec<String>,
    pub platform: Option<String>,
    pub python_tag: String,
    pub version: String,
}

impl WheelWriter {
    /// The tag of the wheel.
    pub fn tag(&self) -> (r: Tag)
        ensures
            r.abi_tag == self.abi,
            r.build_tag == self.build_tag,
            r.distribution == self.distribution,
            r.platform == self.platform,
            r.python_tag == self.python_tag,
            r.version == self.version,
    {
        Tag::new(
            self.abi.clone(),
            self.build_tag.clone(),
            self.distribution.clone(),
            self.platform.clone(),
            self.python_tag.clone(),
            self.version.clone(),
        )
    }

    /// The name of the `dist-info` directory: `{distribution}-{version}.dist-info`.
    pub fn dist_info_path(&self) -> (r: String)
        ensures
            r@ == self.distribution@ + "-"@ + self.version@ + ".dist-info"@,
    {
        let mut path: String = String::from_str(self.distribution.as_str());
        path.append("-");
        path.append(self.version.as_str());
        path.append(".dist-info");
        path
    }
}

} // verus!
