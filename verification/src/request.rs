use vstd::prelude::*;

use crate::options::ArchiveOpts;

verus! {

// ---------------------------------------------------------------------------
// Construction of one archival submission request, and the
// human-readable form of a URL for reporting.
// ---------------------------------------------------------------------------

/// One multipart form field: a name and its value.
pub struct FormField {
    pub name: String,
    pub value: String,
}

/// The name/value character sequences of a field list, in order.
pub open spec fn field_views(fs: Seq<FormField>) -> Seq<(Seq<char>, Seq<char>)> {
    fs.map_values(|f: FormField| (f.name@, f.value@))
}

/// The form fields submitted for `url` under `opts`: the target URL
/// itself, then one `on` flag per enabled capture option, in the fixed
/// order outlinks, error pages, screenshot.
pub open spec fn spec_form_fields(url: Seq<char>, opts: ArchiveOpts) -> Seq<
    (Seq<char>, Seq<char>),
> {
    let fields = seq![("url"@, url)];
    let fields = if opts.save_outlinks {
        fields.push(("capture_outlinks"@, "on"@))
    } else {
        fields
    };
    let fields = if opts.save_error {
        fields.push(("capture_all"@, "on"@))
    } else {
        fields
    };
    if opts.save_screenshot {
        fields.push(("capture_screenshot"@, "on"@))
    } else {
        fields
    }
}

proof fn lemma_field_views_push(fs: Seq<FormField>, f: FormField)
    ensures
        field_views(fs.push(f)) =~= field_views(fs).push((f.name@, f.value@)),
{
}

/// Builds the multipart form for submitting `url`: field `url` set to
/// the target, and `capture_outlinks` / `capture_all` /
/// `capture_screenshot` each set to `on` exactly when the corresponding
/// option is enabled, omitted otherwise.
pub fn build_form_fields(url: &str, opts: &ArchiveOpts) -> (r: Vec<FormField>)
    ensures
        field_views(r@) == spec_form_fields(url@, *opts),
{
    let mut fields: Vec<FormField> = Vec::new();
    proof {
        assert(field_views(fields@) =~= Seq::<(Seq<char>, Seq<char>)>::empty());
    }
    let ghost empty_fields = fields@;
    fields.push(FormField { name: "url".to_owned(), value: url.to_owned() });
    proof {
        lemma_field_views_push(empty_fields, fields@[0]);
        assert(field_views(fields@) =~= seq![("url"@, url@)]);
    }
    if opts.save_outlinks {
        let ghost before = fields@;
        fields.push(FormField { name: "capture_outlinks".to_owned(), value: "on".to_owned() });
        proof {
            lemma_field_views_push(before, fields@.last());
        }
    }
    if opts.save_error {
        let ghost before = fields@;
        fields.push(FormField { name: "capture_all".to_owned(), value: "on".to_owned() });
        proof {
            lemma_field_views_push(before, fields@.last());
        }
    }
    if opts.save_screenshot {
        let ghost before = fields@;
        fields.push(FormField { name: "capture_screenshot".to_owned(), value: "on".to_owned() });
        proof {
            lemma_field_views_push(before, fields@.last());
        }
    }
    fields
}

/// The fixed prefix of the archival save endpoint's address.
pub open spec fn spec_save_prefix() -> Seq<char> {
    "https://web.archive.org/save/"@
}

/// What `urlencoding::encode` yields for a given character sequence:
/// the text percent-encoded as one path component.
pub uninterp spec fn encoded_of(s: Seq<char>) -> Seq<char>;

/// A character that percent-encoding passes through or produces: an
/// ASCII alphanumeric, `-`, `.`, `_`, `~`, or `%`.  In particular, an
/// encoded component holds neither `/` nor `:`.
pub open spec fn is_path_component_char(c: char) -> bool {
    (48 <= c as u32 && c as u32 <= 57)  // '0' ..= '9'
    || (65 <= c as u32 && c as u32 <= 90)  // 'A' ..= 'Z'
    || (97 <= c as u32 && c as u32 <= 122)  // 'a' ..= 'z'
    || c == '-' || c == '.' || c == '_' || c == '~' || c == '%'
}

/// Relies on urlencoding::encode: percent-encodes every byte except
/// ASCII alphanumerics and `-`, `.`, `_`, `~`; the outcome depends on
/// the input characters alone.
#[verifier::external_body]
fn encode_percent(s: &str) -> (r: String)
    ensures
        r@ == encoded_of(s@),
        forall|k: int| 0 <= k < r@.len() ==> is_path_component_char(r@[k]),
        s@.len() == 0 ==> r@.len() == 0,
{
    urlencoding::encode(s).into_owned()
}

/// The address the submission for `url` is posted to: the fixed save
/// endpoint with the target URL appended, percent-encoded as one path
/// component (so the appended part holds neither `/` nor `:`).
pub fn save_endpoint(url: &str) -> (r: String)
    ensures
        r@ == spec_save_prefix() + encoded_of(url@),
        forall|k: int|
            spec_save_prefix().len() <= k < r@.len() ==> is_path_component_char(#[trigger] r@[k]),
{
    let base = "https://web.archive.org/save/".to_owned();
    let encoded = encode_percent(url);
    let r = base.concat(encoded.as_str());
    proof {
        assert forall|k: int|
            spec_save_prefix().len() <= k < r@.len() implies is_path_component_char(
            #[trigger] r@[k],
        ) by {
            assert(r@[k] == encoded@[k - spec_save_prefix().len()]);
        }
    }
    r
}

/// What `urlencoding::decode` yields for a given character sequence:
/// `Some` of the percent-decoded text, or `None` where the decoded
/// bytes are not valid UTF-8.
pub uninterp spec fn decoded_of(s: Seq<char>) -> Option<Seq<char>>;

/// Relies on urlencoding::decode: percent-decodes the text, failing
/// only on invalid UTF-8; the outcome depends on the input characters
/// alone.
#[verifier::external_body]
fn decode_percent(s: &str) -> (r: Option<String>)
    ensures
        decoded_of(s@) == match r {
            Some(d) => Some(d@),
            None => None::<Seq<char>>,
        },
{
    match urlencoding::decode(s) {
        Ok(d) => Some(d.into_owned()),
        Err(_) => None,
    }
}

/// The human-readable form of a URL for reporting: its percent-decoded
/// text, or the URL exactly as written where decoding fails.
pub fn display_url(url: &str) -> (r: String)
    ensures
        match decoded_of(url@) {
            Some(d) => r@ == d,
            None => r@ == url@,
        },
{
    match decode_percent(url) {
        Some(d) => d,
        None => url.to_owned(),
    }
}

} // verus!
