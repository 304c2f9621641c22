use vstd::prelude::*;

verus! {

// ---------------------------------------------------------------------------
// The grammar that this module consumes.
//
// A sitemap is an XML document of a fixed shape: an optional XML
// prolog, an optional document type declaration, then a single `urlset`
// element whose children are elements.  Children named `url` contribute
// one result each; they must carry exactly one `loc` child whose text —
// with the five predefined references (`&amp;`, `&lt;`, `&gt;`,
// `&apos;`, `&quot;`) resolved — is the page address.  Any other child
// element (of the `urlset` or of a `url`) is skipped whole, nested
// elements, comments and CDATA sections included, its tag names beyond
// the outermost unchecked.  Comments may stand wherever elements may,
// and after the document.  Attributes are allowed on every tag and are
// skipped as opaque text (they are not validated); a declaration is
// skipped to its first `>`, so an internal DTD subset is not supported,
// and numeric character references are not.
//
// The spec functions below define that grammar over the document's
// character sequence.  `spec_extract_urls` is the reference semantics:
// `Some(locs)` for a document of this shape, listing the `loc` texts in
// document order, and `None` for every other input.
// ---------------------------------------------------------------------------

/// XML whitespace: space, tab, line feed, carriage return.
pub open spec fn is_xml_ws(c: char) -> bool {
    c == ' ' || c == '\t' || c == '\n' || c == '\r'
}

/// Characters accepted inside a tag name.
pub open spec fn is_name_char(c: char) -> bool {
    (97 <= c as u32 && c as u32 <= 122)  // 'a' ..= 'z'
    || (65 <= c as u32 && c as u32 <= 90)  // 'A' ..= 'Z'
    || (48 <= c as u32 && c as u32 <= 57)  // '0' ..= '9'
    || c == '_' || c == '-' || c == '.' || c == ':'
}

/// First index at or after `i` holding a non-whitespace character, or the
/// end of the document.
pub open spec fn skip_ws(s: Seq<char>, i: int) -> int
    decreases s.len() - i,
{
    if 0 <= i < s.len() && is_xml_ws(s[i]) {
        skip_ws(s, i + 1)
    } else {
        i
    }
}

/// First index at or after `i` whose character cannot be part of a tag
/// name, or the end of the document.
pub open spec fn scan_name_end(s: Seq<char>, i: int) -> int
    decreases s.len() - i,
{
    if 0 <= i < s.len() && is_name_char(s[i]) {
        scan_name_end(s, i + 1)
    } else {
        i
    }
}

/// First index at or after `i` holding `<`, or the end of the document.
pub open spec fn scan_lt(s: Seq<char>, i: int) -> int
    decreases s.len() - i,
{
    if 0 <= i < s.len() && s[i] != '<' {
        scan_lt(s, i + 1)
    } else {
        i
    }
}

/// First index at or after `i` holding `>` or `<`, or the end of the
/// document.  Used to find the end of a tag while rejecting a stray `<`.
pub open spec fn scan_tag_end(s: Seq<char>, i: int) -> int
    decreases s.len() - i,
{
    if 0 <= i < s.len() && s[i] != '>' && s[i] != '<' {
        scan_tag_end(s, i + 1)
    } else {
        i
    }
}

pub proof fn lemma_skip_ws_bounds(s: Seq<char>, i: int)
    requires
        0 <= i <= s.len(),
    ensures
        i <= skip_ws(s, i) <= s.len(),
    decreases s.len() - i,
{
    if i < s.len() && is_xml_ws(s[i]) {
        lemma_skip_ws_bounds(s, i + 1);
    }
}

pub proof fn lemma_scan_name_end_bounds(s: Seq<char>, i: int)
    requires
        0 <= i <= s.len(),
    ensures
        i <= scan_name_end(s, i) <= s.len(),
    decreases s.len() - i,
{
    if i < s.len() && is_name_char(s[i]) {
        lemma_scan_name_end_bounds(s, i + 1);
    }
}

pub proof fn lemma_scan_lt_bounds(s: Seq<char>, i: int)
    requires
        0 <= i <= s.len(),
    ensures
        i <= scan_lt(s, i) <= s.len(),
    decreases s.len() - i,
{
    if i < s.len() && s[i] != '<' {
        lemma_scan_lt_bounds(s, i + 1);
    }
}

pub proof fn lemma_scan_tag_end_bounds(s: Seq<char>, i: int)
    requires
        0 <= i <= s.len(),
    ensures
        i <= scan_tag_end(s, i) <= s.len(),
    decreases s.len() - i,
{
    if i < s.len() && s[i] != '>' && s[i] != '<' {
        lemma_scan_tag_end_bounds(s, i + 1);
    }
}

/// Whether a comment (`<!--`) starts at `i`.
pub open spec fn is_comment_start(s: Seq<char>, i: int) -> bool {
    0 <= i && i + 3 < s.len() && s[i] == '<' && s[i + 1] == '!' && s[i + 2] == '-' && s[i + 3]
        == '-'
}

/// The index just past the first `-->` at or after `i`.
pub open spec fn spec_comment_end(s: Seq<char>, i: int) -> Option<int>
    decreases s.len() - i,
{
    if !(0 <= i && i + 2 < s.len()) {
        None  // unterminated comment
    } else if s[i] == '-' && s[i + 1] == '-' && s[i + 2] == '>' {
        Some(i + 3)
    } else {
        spec_comment_end(s, i + 1)
    }
}

pub proof fn lemma_comment_end_bounds(s: Seq<char>, i: int)
    requires
        0 <= i <= s.len(),
    ensures
        spec_comment_end(s, i) matches Some(k) ==> i + 3 <= k <= s.len(),
    decreases s.len() - i,
{
    if 0 <= i && i + 2 < s.len() && !(s[i] == '-' && s[i + 1] == '-' && s[i + 2] == '>') {
        lemma_comment_end_bounds(s, i + 1);
    }
}

/// Whether a CDATA section (`<![CDATA[`) starts at `i`.
pub open spec fn is_cdata_start(s: Seq<char>, i: int) -> bool {
    0 <= i && i + 8 < s.len() && s[i] == '<' && s[i + 1] == '!' && s[i + 2] == '[' && s[i + 3]
        == 'C' && s[i + 4] == 'D' && s[i + 5] == 'A' && s[i + 6] == 'T' && s[i + 7] == 'A' && s[i
        + 8] == '['
}

/// The index just past the first `]]>` at or after `i`.
pub open spec fn spec_cdata_end(s: Seq<char>, i: int) -> Option<int>
    decreases s.len() - i,
{
    if !(0 <= i && i + 2 < s.len()) {
        None  // unterminated CDATA section
    } else if s[i] == ']' && s[i + 1] == ']' && s[i + 2] == '>' {
        Some(i + 3)
    } else {
        spec_cdata_end(s, i + 1)
    }
}

pub proof fn lemma_cdata_end_bounds(s: Seq<char>, i: int)
    requires
        0 <= i <= s.len(),
    ensures
        spec_cdata_end(s, i) matches Some(k) ==> i + 3 <= k <= s.len(),
    decreases s.len() - i,
{
    if 0 <= i && i + 2 < s.len() && !(s[i] == ']' && s[i + 1] == ']' && s[i + 2] == '>') {
        lemma_cdata_end_bounds(s, i + 1);
    }
}

/// First index at or after `i` holding neither whitespace nor a
/// complete comment.  An unterminated comment is left in place, and
/// rejected by whatever parse follows it.
pub open spec fn skip_misc(s: Seq<char>, i: int) -> int
    decreases s.len() - i,
    when 0 <= i <= s.len()
{
    let j = skip_ws(s, i);
    if is_comment_start(s, j) {
        match spec_comment_end(s, j + 4) {
            Some(k) => {
                proof {
                    lemma_skip_ws_bounds(s, i);
                    lemma_comment_end_bounds(s, j + 4);
                }
                skip_misc(s, k)
            },
            None => j,
        }
    } else {
        j
    }
}

pub proof fn lemma_skip_misc_bounds(s: Seq<char>, i: int)
    requires
        0 <= i <= s.len(),
    ensures
        i <= skip_misc(s, i) <= s.len(),
    decreases s.len() - i,
{
    lemma_skip_ws_bounds(s, i);
    let j = skip_ws(s, i);
    if is_comment_start(s, j) {
        lemma_comment_end_bounds(s, j + 4);
        match spec_comment_end(s, j + 4) {
            Some(k) => {
                lemma_skip_misc_bounds(s, k);
            },
            None => {},
        }
    }
}

/// Tag name of the root element.
pub open spec fn urlset_name() -> Seq<char> {
    seq!['u', 'r', 'l', 's', 'e', 't']
}

/// Tag name of one entry element.
pub open spec fn url_name() -> Seq<char> {
    seq!['u', 'r', 'l']
}

/// Tag name of the location child of an entry.
pub open spec fn loc_name() -> Seq<char> {
    seq!['l', 'o', 'c']
}

/// An opening tag at `i`: `<` name, optionally whitespace-led attribute
/// text, then `>` (or `/>` for a self-closing tag).  Yields the name, the
/// index just past the `>`, and whether the tag closed itself.  `None`
/// when `i` does not start such a tag.
pub open spec fn spec_open_tag(s: Seq<char>, i: int) -> Option<(Seq<char>, int, bool)> {
    if !(0 <= i < s.len() && s[i] == '<') {
        None
    } else {
        let ne = scan_name_end(s, i + 1);
        if ne == i + 1 {
            None  // empty name
        } else {
            let g = scan_tag_end(s, ne);
            if !(g < s.len() && s[g] == '>') {
                None  // unterminated tag, or a stray `<` inside it
            } else {
                let attrs_ok = ne == g || is_xml_ws(s[ne]) || (s[ne] == '/' && g == ne + 1);
                let self_closing = g > ne && s[g - 1] == '/';
                if attrs_ok {
                    Some((s.subrange(i + 1, ne), g + 1, self_closing))
                } else {
                    None
                }
            }
        }
    }
}

/// A closing tag at `i`: `</` name, optional whitespace, `>`.  Yields the
/// index just past the `>`; `None` when `i` does not start the closing
/// tag of `name`.
pub open spec fn spec_close_tag(s: Seq<char>, i: int, name: Seq<char>) -> Option<int> {
    if !(0 <= i && i + 1 < s.len() && s[i] == '<' && s[i + 1] == '/') {
        None
    } else {
        let ne = scan_name_end(s, i + 2);
        if s.subrange(i + 2, ne) != name || ne == i + 2 {
            None
        } else {
            let g = skip_ws(s, ne);
            if g < s.len() && s[g] == '>' {
                Some(g + 1)
            } else {
                None
            }
        }
    }
}

/// A closing tag at `i` of any nonempty name, the name unchecked.
pub open spec fn spec_close_any(s: Seq<char>, i: int) -> Option<int> {
    if !(0 <= i && i + 1 < s.len() && s[i] == '<' && s[i + 1] == '/') {
        None
    } else {
        let ne = scan_name_end(s, i + 2);
        if ne == i + 2 {
            None
        } else {
            let g = skip_ws(s, ne);
            if g < s.len() && s[g] == '>' {
                Some(g + 1)
            } else {
                None
            }
        }
    }
}

pub proof fn lemma_close_any_bounds(s: Seq<char>, i: int)
    ensures
        spec_close_any(s, i) matches Some(k) ==> i + 4 <= k <= s.len(),
{
    if 0 <= i && i + 1 < s.len() && s[i] == '<' && s[i + 1] == '/' {
        lemma_scan_name_end_bounds(s, i + 2);
        let ne = scan_name_end(s, i + 2);
        lemma_skip_ws_bounds(s, ne);
    }
}

/// The rest of an ignored element whose opening tag of `name` ended at
/// `i`, with `depth` nested elements currently open: text, comments,
/// CDATA sections and balanced nested elements (their own names
/// unchecked) up to and past the closing tag matching `name`.  Yields
/// the index just past that closing tag.
pub open spec fn spec_skip_element(s: Seq<char>, i: int, name: Seq<char>, depth: int) -> Option<
    int,
>
    decreases s.len() - i,
    when 0 <= i <= s.len()
{
    let t = scan_lt(s, i);
    if t + 1 >= s.len() {
        None  // no closing tag left
    } else if s[t + 1] == '/' {
        if depth == 0 {
            spec_close_tag(s, t, name)
        } else {
            match spec_close_any(s, t) {
                Some(m) => {
                    proof {
                        lemma_scan_lt_bounds(s, i);
                        lemma_close_any_bounds(s, t);
                    }
                    spec_skip_element(s, m, name, depth - 1)
                },
                None => None,
            }
        }
    } else if is_comment_start(s, t) {
        match spec_comment_end(s, t + 4) {
            Some(m) => {
                proof {
                    lemma_scan_lt_bounds(s, i);
                    lemma_comment_end_bounds(s, t + 4);
                }
                spec_skip_element(s, m, name, depth)
            },
            None => None,
        }
    } else if is_cdata_start(s, t) {
        match spec_cdata_end(s, t + 9) {
            Some(m) => {
                proof {
                    lemma_scan_lt_bounds(s, i);
                    lemma_cdata_end_bounds(s, t + 9);
                }
                spec_skip_element(s, m, name, depth)
            },
            None => None,
        }
    } else {
        match spec_open_tag(s, t) {
            Some((_inner, k, self_closing)) => {
                proof {
                    lemma_scan_lt_bounds(s, i);
                    lemma_open_tag_bounds(s, t);
                }
                spec_skip_element(
                    s,
                    k,
                    name,
                    if self_closing {
                        depth
                    } else {
                        depth + 1
                    },
                )
            },
            None => None,
        }
    }
}

pub proof fn lemma_open_tag_bounds(s: Seq<char>, i: int)
    ensures
        spec_open_tag(s, i) matches Some((name, k, sc)) ==> i + 2 <= k <= s.len(),
{
    if 0 <= i < s.len() && s[i] == '<' {
        lemma_scan_name_end_bounds(s, i + 1);
        let ne = scan_name_end(s, i + 1);
        lemma_scan_tag_end_bounds(s, ne);
    }
}

pub proof fn lemma_close_tag_bounds(s: Seq<char>, i: int, name: Seq<char>)
    ensures
        spec_close_tag(s, i, name) matches Some(k) ==> i + 3 <= k <= s.len(),
{
    if 0 <= i && i + 1 < s.len() && s[i] == '<' && s[i + 1] == '/' {
        lemma_scan_name_end_bounds(s, i + 2);
        let ne = scan_name_end(s, i + 2);
        lemma_skip_ws_bounds(s, ne);
    }
}

pub proof fn lemma_skip_element_bounds(s: Seq<char>, i: int, name: Seq<char>, depth: int)
    requires
        0 <= i <= s.len(),
    ensures
        spec_skip_element(s, i, name, depth) matches Some(k) ==> i < k <= s.len(),
    decreases s.len() - i,
{
    lemma_scan_lt_bounds(s, i);
    let t = scan_lt(s, i);
    if t + 1 >= s.len() {
    } else if s[t + 1] == '/' {
        if depth == 0 {
            lemma_close_tag_bounds(s, t, name);
        } else {
            lemma_close_any_bounds(s, t);
            match spec_close_any(s, t) {
                Some(m) => {
                    lemma_skip_element_bounds(s, m, name, depth - 1);
                },
                None => {},
            }
        }
    } else if is_comment_start(s, t) {
        lemma_comment_end_bounds(s, t + 4);
        match spec_comment_end(s, t + 4) {
            Some(m) => {
                lemma_skip_element_bounds(s, m, name, depth);
            },
            None => {},
        }
    } else if is_cdata_start(s, t) {
        lemma_cdata_end_bounds(s, t + 9);
        match spec_cdata_end(s, t + 9) {
            Some(m) => {
                lemma_skip_element_bounds(s, m, name, depth);
            },
            None => {},
        }
    } else {
        lemma_open_tag_bounds(s, t);
        match spec_open_tag(s, t) {
            Some((_inner, k, self_closing)) => {
                lemma_skip_element_bounds(
                    s,
                    k,
                    name,
                    if self_closing {
                        depth
                    } else {
                        depth + 1
                    },
                );
            },
            None => {},
        }
    }
}

/// The reference of `&amp;` and its four companions, as written.
pub open spec fn amp_ref() -> Seq<char> {
    seq!['&', 'a', 'm', 'p', ';']
}

pub open spec fn lt_ref() -> Seq<char> {
    seq!['&', 'l', 't', ';']
}

pub open spec fn gt_ref() -> Seq<char> {
    seq!['&', 'g', 't', ';']
}

pub open spec fn apos_ref() -> Seq<char> {
    seq!['&', 'a', 'p', 'o', 's', ';']
}

pub open spec fn quot_ref() -> Seq<char> {
    seq!['&', 'q', 'u', 'o', 't', ';']
}

/// Element text with the five predefined references resolved: `&amp;`,
/// `&lt;`, `&gt;`, `&apos;`, `&quot;`.  `None` on any other use of `&`,
/// which XML text does not allow (numeric character references are not
/// supported).
pub open spec fn decode_entities(u: Seq<char>) -> Option<Seq<char>>
    decreases u.len(),
{
    if u.len() == 0 {
        Some(Seq::<char>::empty())
    } else if u[0] != '&' {
        match decode_entities(u.drop_first()) {
            Some(r) => Some(seq![u[0]] + r),
            None => None,
        }
    } else if u.len() >= 5 && u.subrange(0, 5) == amp_ref() {
        match decode_entities(u.skip(5)) {
            Some(r) => Some(seq!['&'] + r),
            None => None,
        }
    } else if u.len() >= 4 && u.subrange(0, 4) == lt_ref() {
        match decode_entities(u.skip(4)) {
            Some(r) => Some(seq!['<'] + r),
            None => None,
        }
    } else if u.len() >= 4 && u.subrange(0, 4) == gt_ref() {
        match decode_entities(u.skip(4)) {
            Some(r) => Some(seq!['>'] + r),
            None => None,
        }
    } else if u.len() >= 6 && u.subrange(0, 6) == apos_ref() {
        match decode_entities(u.skip(6)) {
            Some(r) => Some(seq!['\''] + r),
            None => None,
        }
    } else if u.len() >= 6 && u.subrange(0, 6) == quot_ref() {
        match decode_entities(u.skip(6)) {
            Some(r) => Some(seq!['"'] + r),
            None => None,
        }
    } else {
        None
    }
}

/// Text free of references decodes to itself.
pub proof fn lemma_decode_entities_plain(u: Seq<char>)
    requires
        forall|k: int| 0 <= k < u.len() ==> u[k] != '&',
    ensures
        decode_entities(u) == Some(u),
    decreases u.len(),
{
    if u.len() == 0 {
        assert(u =~= Seq::<char>::empty());
    } else {
        assert(u[0] != '&');
        assert forall|k: int| 0 <= k < u.drop_first().len() implies u.drop_first()[k] != '&' by {
            assert(u.drop_first()[k] == u[k + 1]);
        }
        lemma_decode_entities_plain(u.drop_first());
        assert(seq![u[0]] + u.drop_first() =~= u);
    }
}

/// The children of one `url` element, starting at `i` just past its
/// opening tag; `found` carries the `loc` text seen so far.  Accepts
/// child elements separated by whitespace and comments, up to the
/// element's closing tag.  Exactly one `loc` child must occur, its text
/// decoded of the predefined references; other children are skipped
/// whole.  Yields the index just past `</url>` and the `loc` text.
pub open spec fn spec_url_children(s: Seq<char>, i: int, found: Option<Seq<char>>) -> Option<
    (int, Seq<char>),
>
    decreases s.len() - i,
    when 0 <= i <= s.len()
{
    let j = skip_misc(s, i);
    if j + 1 < s.len() && s[j] == '<' && s[j + 1] == '/' {
        match spec_close_tag(s, j, url_name()) {
            Some(k) => match found {
                Some(loc) => Some((k, loc)),
                None => None,  // a url element without a loc child
            },
            None => None,
        }
    } else {
        match spec_open_tag(s, j) {
            None => None,
            Some((name, k, self_closing)) => {
                proof {
                    lemma_skip_misc_bounds(s, i);
                    lemma_open_tag_bounds(s, j);
                    lemma_skip_element_bounds(s, k, name, 0);
                }
                if name == loc_name() {
                    if found is Some {
                        None  // duplicate loc child
                    } else if self_closing {
                        spec_url_children(s, k, Some(Seq::<char>::empty()))
                    } else {
                        let t = scan_lt(s, k);
                        match spec_close_tag(s, t, loc_name()) {
                            Some(m) => match decode_entities(s.subrange(k, t)) {
                                Some(loc) => {
                                    proof {
                                        lemma_scan_lt_bounds(s, k);
                                        lemma_close_tag_bounds(s, t, loc_name());
                                    }
                                    spec_url_children(s, m, Some(loc))
                                },
                                None => None,
                            },
                            None => None,
                        }
                    }
                } else {
                    if self_closing {
                        spec_url_children(s, k, found)
                    } else {
                        match spec_skip_element(s, k, name, 0) {
                            Some(m) => spec_url_children(s, m, found),
                            None => None,
                        }
                    }
                }
            },
        }
    }
}

/// The children of the `urlset` element, starting at `i` just past its
/// opening tag, with the locations collected so far in `acc`.  Accepts
/// child elements separated by whitespace and comments, up to
/// `</urlset>`, which only trailing whitespace and comments may follow.
/// Each `url` child appends its `loc` text; other children are skipped
/// whole.
pub open spec fn spec_root_children(s: Seq<char>, i: int, acc: Seq<Seq<char>>) -> Option<
    Seq<Seq<char>>,
>
    decreases s.len() - i,
    when 0 <= i <= s.len()
{
    let j = skip_misc(s, i);
    if j + 1 < s.len() && s[j] == '<' && s[j + 1] == '/' {
        match spec_close_tag(s, j, urlset_name()) {
            Some(k) => {
                proof {
                    lemma_skip_misc_bounds(s, i);
                    lemma_close_tag_bounds(s, j, urlset_name());
                }
                if skip_misc(s, k) == s.len() {
                    Some(acc)
                } else {
                    None  // trailing content after the document
                }
            },
            None => None,
        }
    } else {
        match spec_open_tag(s, j) {
            None => None,
            Some((name, k, self_closing)) => {
                proof {
                    lemma_skip_misc_bounds(s, i);
                    lemma_open_tag_bounds(s, j);
                    lemma_skip_element_bounds(s, k, name, 0);
                }
                if name == url_name() {
                    if self_closing {
                        None  // a url element without a loc child
                    } else {
                        match spec_url_children(s, k, None) {
                            Some((m, loc)) => {
                                proof {
                                    lemma_url_children_bounds(s, k, None);
                                }
                                spec_root_children(s, m, acc.push(loc))
                            },
                            None => None,
                        }
                    }
                } else {
                    if self_closing {
                        spec_root_children(s, k, acc)
                    } else {
                        match spec_skip_element(s, k, name, 0) {
                            Some(m) => spec_root_children(s, m, acc),
                            None => None,
                        }
                    }
                }
            },
        }
    }
}

pub proof fn lemma_url_children_bounds(s: Seq<char>, i: int, found: Option<Seq<char>>)
    requires
        0 <= i <= s.len(),
    ensures
        spec_url_children(s, i, found) matches Some((k, loc)) ==> i < k <= s.len(),
    decreases s.len() - i,
{
    lemma_skip_misc_bounds(s, i);
    let j = skip_misc(s, i);
    if j + 1 < s.len() && s[j] == '<' && s[j + 1] == '/' {
        lemma_close_tag_bounds(s, j, url_name());
    } else {
        match spec_open_tag(s, j) {
            None => {},
            Some((name, k, self_closing)) => {
                lemma_open_tag_bounds(s, j);
                lemma_skip_element_bounds(s, k, name, 0);
                if name == loc_name() {
                    if found is Some {
                    } else if self_closing {
                        lemma_url_children_bounds(s, k, Some(Seq::<char>::empty()));
                    } else {
                        let t = scan_lt(s, k);
                        lemma_scan_lt_bounds(s, k);
                        match spec_close_tag(s, t, loc_name()) {
                            Some(m) => {
                                lemma_close_tag_bounds(s, t, loc_name());
                                match decode_entities(s.subrange(k, t)) {
                                    Some(loc) => {
                                        lemma_url_children_bounds(s, m, Some(loc));
                                    },
                                    None => {},
                                }
                            },
                            None => {},
                        }
                    }
                } else {
                    if self_closing {
                        lemma_url_children_bounds(s, k, found);
                    } else {
                        match spec_skip_element(s, k, name, 0) {
                            Some(m) => {
                                lemma_url_children_bounds(s, m, found);
                            },
                            None => {},
                        }
                    }
                }
            },
        }
    }
}

/// The index just past an optional XML prolog at `i`: for `<?` scan for
/// the first `?>`; otherwise the document has no prolog and `i` itself
/// is returned.
pub open spec fn spec_after_prolog(s: Seq<char>, i: int) -> Option<int> {
    if 0 <= i && i + 1 < s.len() && s[i] == '<' && s[i + 1] == '?' {
        spec_prolog_end(s, i + 2)
    } else {
        Some(i)
    }
}

/// The index just past the first `?>` at or after `i`.
pub open spec fn spec_prolog_end(s: Seq<char>, i: int) -> Option<int>
    decreases s.len() - i,
{
    if !(0 <= i && i + 1 < s.len()) {
        None  // unterminated prolog
    } else if s[i] == '?' && s[i + 1] == '>' {
        Some(i + 2)
    } else {
        spec_prolog_end(s, i + 1)
    }
}

pub proof fn lemma_prolog_end_bounds(s: Seq<char>, i: int)
    requires
        0 <= i <= s.len(),
    ensures
        spec_prolog_end(s, i) matches Some(k) ==> i + 2 <= k <= s.len(),
    decreases s.len() - i,
{
    if 0 <= i && i + 1 < s.len() && !(s[i] == '?' && s[i + 1] == '>') {
        lemma_prolog_end_bounds(s, i + 1);
    }
}

/// The index just past an optional document type declaration at `i`:
/// for `<!` (a declaration; complete comments were already skipped)
/// scan to the first `>`, rejecting a stray `<`; otherwise `i` itself.
pub open spec fn spec_after_doctype(s: Seq<char>, i: int) -> Option<int> {
    if 0 <= i && i + 1 < s.len() && s[i] == '<' && s[i + 1] == '!' {
        let g = scan_tag_end(s, i + 2);
        if g < s.len() && s[g] == '>' {
            Some(g + 1)
        } else {
            None
        }
    } else {
        Some(i)
    }
}

/// The reference semantics of extraction: `Some` of the `loc` texts in
/// document order exactly when `s` is a document of the accepted shape,
/// `None` otherwise.
pub open spec fn spec_extract_urls(s: Seq<char>) -> Option<Seq<Seq<char>>> {
    let i0 = skip_ws(s, 0);
    match spec_after_prolog(s, i0) {
        None => None,
        Some(i1) => {
            let i2 = skip_misc(s, i1);
            match spec_after_doctype(s, i2) {
                None => None,
                Some(i3) => {
                    let i4 = skip_misc(s, i3);
                    match spec_open_tag(s, i4) {
                        None => None,
                        Some((name, k, self_closing)) => if name == urlset_name() {
                            if self_closing {
                                if skip_misc(s, k) == s.len() {
                                    Some(Seq::<Seq<char>>::empty())
                                } else {
                                    None  // trailing content after the document
                                }
                            } else {
                                spec_root_children(s, k, Seq::<Seq<char>>::empty())
                            }
                        } else {
                            None  // wrong root element
                        },
                    }
                },
            }
        },
    }
}

// ---------------------------------------------------------------------------
// The executable extractor, verified against the grammar above.
// ---------------------------------------------------------------------------

/// The sitemap text is not a well-formed document of the accepted
/// urlset/url/loc shape.  Extraction fails atomically: no partial list
/// accompanies this error.
#[derive(Clone, Copy, Debug, PartialEq, Eq, Structural)]
pub struct ParseError;

impl ParseError {
    /// A fixed user-facing description of the failure.
    pub fn describe(&self) -> (r: String)
        ensures
            r@ == "sitemap is not a well-formed urlset document"@,
    {
        "sitemap is not a well-formed urlset document".to_owned()
    }
}

/// The character sequences of a list of strings, in order.
pub open spec fn views_of(v: Seq<String>) -> Seq<Seq<char>> {
    v.map_values(|x: String| x@)
}

proof fn lemma_views_of_push(v: Seq<String>, x: String)
    ensures
        views_of(v.push(x)) =~= views_of(v).push(x@),
{
}

spec fn opt_view(o: Option<String>) -> Option<Seq<char>> {
    match o {
        Some(x) => Some(x@),
        None => None,
    }
}

fn exec_is_ws(c: char) -> (b: bool)
    ensures
        b == is_xml_ws(c),
{
    c == ' ' || c == '\t' || c == '\n' || c == '\r'
}

fn exec_is_name_char(c: char) -> (b: bool)
    ensures
        b == is_name_char(c),
{
    let u = c as u32;
    (97 <= u && u <= 122) || (65 <= u && u <= 90) || (48 <= u && u <= 57) || c == '_' || c == '-'
        || c == '.' || c == ':'
}

fn exec_skip_ws(s: &str, n: usize, i: usize) -> (j: usize)
    requires
        n == s@.len(),
        i <= n,
    ensures
        j as int == skip_ws(s@, i as int),
        i <= j <= n,
{
    let mut j = i;
    while j < n
        invariant
            i <= j <= n,
            n == s@.len(),
            skip_ws(s@, i as int) == skip_ws(s@, j as int),
        decreases n - j,
    {
        let c = s.get_char(j);
        if exec_is_ws(c) {
            j = j + 1;
        } else {
            return j;
        }
    }
    j
}

fn exec_scan_name_end(s: &str, n: usize, i: usize) -> (j: usize)
    requires
        n == s@.len(),
        i <= n,
    ensures
        j as int == scan_name_end(s@, i as int),
        i <= j <= n,
{
    let mut j = i;
    while j < n
        invariant
            i <= j <= n,
            n == s@.len(),
            scan_name_end(s@, i as int) == scan_name_end(s@, j as int),
        decreases n - j,
    {
        let c = s.get_char(j);
        if exec_is_name_char(c) {
            j = j + 1;
        } else {
            return j;
        }
    }
    j
}

fn exec_scan_lt(s: &str, n: usize, i: usize) -> (j: usize)
    requires
        n == s@.len(),
        i <= n,
    ensures
        j as int == scan_lt(s@, i as int),
        i <= j <= n,
        j < n ==> s@[j as int] == '<',
{
    let mut j = i;
    while j < n
        invariant
            i <= j <= n,
            n == s@.len(),
            scan_lt(s@, i as int) == scan_lt(s@, j as int),
        decreases n - j,
    {
        let c = s.get_char(j);
        if c != '<' {
            j = j + 1;
        } else {
            return j;
        }
    }
    j
}

fn exec_scan_tag_end(s: &str, n: usize, i: usize) -> (j: usize)
    requires
        n == s@.len(),
        i <= n,
    ensures
        j as int == scan_tag_end(s@, i as int),
        i <= j <= n,
{
    let mut j = i;
    while j < n
        invariant
            i <= j <= n,
            n == s@.len(),
            scan_tag_end(s@, i as int) == scan_tag_end(s@, j as int),
        decreases n - j,
    {
        let c = s.get_char(j);
        if c != '>' && c != '<' {
            j = j + 1;
        } else {
            return j;
        }
    }
    j
}

/// Whether the characters of `s` from `from` to `to` are exactly `lit`.
fn region_matches(s: &str, n: usize, from: usize, to: usize, lit: &str) -> (b: bool)
    requires
        n == s@.len(),
        from <= to <= n,
    ensures
        b == (s@.subrange(from as int, to as int) == lit@),
{
    let m = lit.unicode_len();
    if to - from != m {
        assert(s@.subrange(from as int, to as int).len() != lit@.len());
        return false;
    }
    let mut k: usize = 0;
    while k < m
        invariant
            k <= m,
            n == s@.len(),
            from <= to <= n,
            m == lit@.len(),
            to - from == m,
            forall|l: int| 0 <= l < k ==> s@[from + l] == lit@[l],
        decreases m - k,
    {
        let a = s.get_char(from + k);
        let b = lit.get_char(k);
        if a != b {
            assert(s@.subrange(from as int, to as int)[k as int] != lit@[k as int]);
            return false;
        }
        k = k + 1;
    }
    assert(s@.subrange(from as int, to as int) =~= lit@);
    true
}

/// Whether the characters of `s` from `a1` to `e1` are exactly those
/// from `a2` to `e2`.
fn region_eq(s: &str, n: usize, a1: usize, e1: usize, a2: usize, e2: usize) -> (b: bool)
    requires
        n == s@.len(),
        a1 <= e1 <= n,
        a2 <= e2 <= n,
    ensures
        b == (s@.subrange(a1 as int, e1 as int) == s@.subrange(a2 as int, e2 as int)),
{
    if e1 - a1 != e2 - a2 {
        assert(s@.subrange(a1 as int, e1 as int).len() != s@.subrange(a2 as int, e2 as int).len());
        return false;
    }
    let m = e1 - a1;
    let mut k: usize = 0;
    while k < m
        invariant
            k <= m,
            n == s@.len(),
            a1 <= e1 <= n,
            a2 <= e2 <= n,
            m == e1 - a1,
            e1 - a1 == e2 - a2,
            forall|l: int| 0 <= l < k ==> s@[a1 + l] == #[trigger] s@[a2 + l],
        decreases m - k,
    {
        let a = s.get_char(a1 + k);
        let b = s.get_char(a2 + k);
        if a != b {
            assert(s@.subrange(a1 as int, e1 as int)[k as int] != s@.subrange(
                a2 as int,
                e2 as int,
            )[k as int]);
            return false;
        }
        k = k + 1;
    }
    proof {
        assert forall|l: int| 0 <= l < e1 - a1 implies s@.subrange(a1 as int, e1 as int)[l]
            == #[trigger] s@.subrange(a2 as int, e2 as int)[l] by {
            assert(s@[a1 + l] == s@[a2 + l]);
        }
        assert(s@.subrange(a1 as int, e1 as int) =~= s@.subrange(a2 as int, e2 as int));
    }
    true
}

/// Parses an opening tag at `i`.  On success returns the index where the
/// tag's name ends (the name spans `i + 1` to there), the index just
/// past the `>`, and whether the tag was self-closing.
fn exec_open_tag(s: &str, n: usize, i: usize) -> (r: Option<(usize, usize, bool)>)
    requires
        n == s@.len(),
        i <= n,
    ensures
        match r {
            Some((ne, after, sc)) => {
                &&& spec_open_tag(s@, i as int) == Some(
                    (s@.subrange(i as int + 1, ne as int), after as int, sc),
                )
                &&& i + 1 <= ne <= n
                &&& ne < after <= n
            },
            None => spec_open_tag(s@, i as int) is None,
        },
{
    if i >= n || s.get_char(i) != '<' {
        return None;
    }
    let ne = exec_scan_name_end(s, n, i + 1);
    if ne == i + 1 {
        return None;
    }
    let g = exec_scan_tag_end(s, n, ne);
    if g >= n || s.get_char(g) != '>' {
        return None;
    }
    let attrs_ok = ne == g || exec_is_ws(s.get_char(ne)) || (s.get_char(ne) == '/' && g == ne + 1);
    if !attrs_ok {
        return None;
    }
    let self_closing = g > ne && s.get_char(g - 1) == '/';
    Some((ne, g + 1, self_closing))
}

/// Parses the closing tag of `lit` at `i`, returning the index just past
/// its `>`.
fn exec_close_tag_lit(s: &str, n: usize, i: usize, lit: &str) -> (r: Option<usize>)
    requires
        n == s@.len(),
        i <= n,
    ensures
        match r {
            Some(k) => spec_close_tag(s@, i as int, lit@) == Some(k as int) && i + 3 <= k <= n,
            None => spec_close_tag(s@, i as int, lit@) is None,
        },
{
    if n - i < 2 || s.get_char(i) != '<' || s.get_char(i + 1) != '/' {
        return None;
    }
    let ne = exec_scan_name_end(s, n, i + 2);
    if !region_matches(s, n, i + 2, ne, lit) || ne == i + 2 {
        return None;
    }
    let g = exec_skip_ws(s, n, ne);
    if g < n && s.get_char(g) == '>' {
        Some(g + 1)
    } else {
        None
    }
}

/// Parses the closing tag at `i` whose name must equal the characters of
/// `s` from `ns` to `nend` (the name of the matching opening tag).
fn exec_close_tag_span(s: &str, n: usize, i: usize, ns: usize, nend: usize) -> (r: Option<usize>)
    requires
        n == s@.len(),
        i <= n,
        ns <= nend <= n,
    ensures
        match r {
            Some(k) => spec_close_tag(s@, i as int, s@.subrange(ns as int, nend as int)) == Some(
                k as int,
            ) && i + 3 <= k <= n,
            None => spec_close_tag(s@, i as int, s@.subrange(ns as int, nend as int)) is None,
        },
{
    if n - i < 2 || s.get_char(i) != '<' || s.get_char(i + 1) != '/' {
        return None;
    }
    let ne = exec_scan_name_end(s, n, i + 2);
    if !region_eq(s, n, i + 2, ne, ns, nend) || ne == i + 2 {
        return None;
    }
    let g = exec_skip_ws(s, n, ne);
    if g < n && s.get_char(g) == '>' {
        Some(g + 1)
    } else {
        None
    }
}

/// Skips the text content and closing tag of an ignored element whose
/// opening tag (name spanning `ns` to `nend`) ended at `i`.
/// Parses the closing tag of any name at `i`, returning the index just
/// past its `>`.
fn exec_close_any(s: &str, n: usize, i: usize) -> (r: Option<usize>)
    requires
        n == s@.len(),
        i <= n,
    ensures
        match r {
            Some(k) => spec_close_any(s@, i as int) == Some(k as int) && i + 4 <= k <= n,
            None => spec_close_any(s@, i as int) is None,
        },
{
    if n - i < 2 || s.get_char(i) != '<' || s.get_char(i + 1) != '/' {
        return None;
    }
    let ne = exec_scan_name_end(s, n, i + 2);
    if ne == i + 2 {
        return None;
    }
    let g = exec_skip_ws(s, n, ne);
    if g < n && s.get_char(g) == '>' {
        Some(g + 1)
    } else {
        None
    }
}

/// Scans for the end of a comment whose `<!--` ended at `i`.
fn exec_comment_end(s: &str, n: usize, i: usize) -> (r: Option<usize>)
    requires
        n == s@.len(),
        i <= n,
    ensures
        match r {
            Some(k) => spec_comment_end(s@, i as int) == Some(k as int) && i + 3 <= k <= n,
            None => spec_comment_end(s@, i as int) is None,
        },
{
    let mut m = i;
    loop
        invariant
            i <= m <= n,
            n == s@.len(),
            spec_comment_end(s@, i as int) == spec_comment_end(s@, m as int),
        decreases n - m,
    {
        if n - m < 3 {
            return None;
        }
        if s.get_char(m) == '-' && s.get_char(m + 1) == '-' && s.get_char(m + 2) == '>' {
            return Some(m + 3);
        }
        m = m + 1;
    }
}

/// Scans for the end of a CDATA section whose `<![CDATA[` ended at `i`.
fn exec_cdata_end(s: &str, n: usize, i: usize) -> (r: Option<usize>)
    requires
        n == s@.len(),
        i <= n,
    ensures
        match r {
            Some(k) => spec_cdata_end(s@, i as int) == Some(k as int) && i + 3 <= k <= n,
            None => spec_cdata_end(s@, i as int) is None,
        },
{
    let mut m = i;
    loop
        invariant
            i <= m <= n,
            n == s@.len(),
            spec_cdata_end(s@, i as int) == spec_cdata_end(s@, m as int),
        decreases n - m,
    {
        if n - m < 3 {
            return None;
        }
        if s.get_char(m) == ']' && s.get_char(m + 1) == ']' && s.get_char(m + 2) == '>' {
            return Some(m + 3);
        }
        m = m + 1;
    }
}

/// Skips whitespace and complete comments from `i`.
fn exec_skip_misc(s: &str, n: usize, i: usize) -> (j: usize)
    requires
        n == s@.len(),
        i <= n,
    ensures
        j as int == skip_misc(s@, i as int),
        i <= j <= n,
{
    let mut cur = i;
    loop
        invariant
            i <= cur <= n,
            n == s@.len(),
            skip_misc(s@, i as int) == skip_misc(s@, cur as int),
        decreases n - cur,
    {
        let j = exec_skip_ws(s, n, cur);
        let comment = j < n && n - j >= 4 && s.get_char(j) == '<' && s.get_char(j + 1) == '!'
            && s.get_char(j + 2) == '-' && s.get_char(j + 3) == '-';
        if comment {
            match exec_comment_end(s, n, j + 4) {
                Some(k) => {
                    cur = k;
                },
                None => {
                    return j;
                },
            }
        } else {
            return j;
        }
    }
}

/// Skips the content and closing tag of an ignored element whose
/// opening tag (name spanning `ns` to `nend`) ended at `i`: text,
/// comments, CDATA sections and balanced nested elements.
fn exec_skip_element(s: &str, n: usize, i: usize, ns: usize, nend: usize) -> (r: Option<usize>)
    requires
        n == s@.len(),
        i <= n,
        ns <= nend <= n,
    ensures
        match r {
            Some(k) => spec_skip_element(s@, i as int, s@.subrange(ns as int, nend as int), 0)
                == Some(k as int) && i < k <= n,
            None => spec_skip_element(s@, i as int, s@.subrange(ns as int, nend as int), 0)
                is None,
        },
{
    let ghost name = s@.subrange(ns as int, nend as int);
    let mut cur = i;
    let mut depth: usize = 0;
    loop
        invariant
            i <= cur <= n,
            n == s@.len(),
            ns <= nend <= n,
            depth <= cur,
            name == s@.subrange(ns as int, nend as int),
            spec_skip_element(s@, i as int, name, 0) == spec_skip_element(
                s@,
                cur as int,
                name,
                depth as int,
            ),
        decreases n - cur,
    {
        let t = exec_scan_lt(s, n, cur);
        if t >= n || n - t < 2 {
            return None;
        }
        if s.get_char(t + 1) == '/' {
            if depth == 0 {
                match exec_close_tag_span(s, n, t, ns, nend) {
                    Some(k) => {
                        return Some(k);
                    },
                    None => {
                        return None;
                    },
                }
            } else {
                match exec_close_any(s, n, t) {
                    Some(m) => {
                        cur = m;
                        depth = depth - 1;
                    },
                    None => {
                        return None;
                    },
                }
            }
        } else {
            let comment = n - t >= 4 && s.get_char(t + 1) == '!' && s.get_char(t + 2) == '-'
                && s.get_char(t + 3) == '-';
            if comment {
                match exec_comment_end(s, n, t + 4) {
                    Some(m) => {
                        cur = m;
                    },
                    None => {
                        return None;
                    },
                }
            } else {
                let cdata = n - t >= 9 && s.get_char(t + 1) == '!' && s.get_char(t + 2) == '['
                    && s.get_char(t + 3) == 'C' && s.get_char(t + 4) == 'D' && s.get_char(t + 5)
                    == 'A' && s.get_char(t + 6) == 'T' && s.get_char(t + 7) == 'A' && s.get_char(
                    t + 8,
                ) == '[';
                if cdata {
                    match exec_cdata_end(s, n, t + 9) {
                        Some(m) => {
                            cur = m;
                        },
                        None => {
                            return None;
                        },
                    }
                } else {
                    match exec_open_tag(s, n, t) {
                        Some((_ne2, after, self_closing)) => {
                            cur = after;
                            if !self_closing {
                                depth = depth + 1;
                            }
                        },
                        None => {
                            return None;
                        },
                    }
                }
            }
        }
    }
}

/// Skips an optional XML prolog at `i`.
fn exec_after_prolog(s: &str, n: usize, i: usize) -> (r: Option<usize>)
    requires
        n == s@.len(),
        i <= n,
    ensures
        match r {
            Some(k) => spec_after_prolog(s@, i as int) == Some(k as int) && i <= k <= n,
            None => spec_after_prolog(s@, i as int) is None,
        },
{
    if n - i >= 2 && s.get_char(i) == '<' && s.get_char(i + 1) == '?' {
        let mut m = i + 2;
        loop
            invariant
                i + 2 <= m <= n,
                n == s@.len(),
                spec_after_prolog(s@, i as int) == spec_prolog_end(s@, m as int),
            decreases n - m,
        {
            if n - m < 2 {
                return None;
            }
            if s.get_char(m) == '?' && s.get_char(m + 1) == '>' {
                return Some(m + 2);
            }
            m = m + 1;
        }
    } else {
        Some(i)
    }
}

/// Relies on String::push: appends the given character to the end of
/// the string.
#[verifier::external_body]
fn push_char(s: &mut String, c: char)
    ensures
        final(s)@ == old(s)@.push(c),
{
    s.push(c);
}

/// Resolves the five predefined references in element text; `None` on
/// any other use of `&`.
fn exec_decode_entities(text: &str) -> (r: Option<String>)
    ensures
        match r {
            Some(d) => decode_entities(text@) == Some(d@),
            None => decode_entities(text@) is None,
        },
{
    let n = text.unicode_len();
    let mut acc = String::new();
    let mut pos: usize = 0;
    proof {
        assert(text@.skip(0) =~= text@);
    }
    loop
        invariant
            pos <= n,
            n == text@.len(),
            match decode_entities(text@.skip(pos as int)) {
                Some(rest) => decode_entities(text@) == Some(acc@ + rest),
                None => decode_entities(text@) is None,
            },
        decreases n - pos,
    {
        if pos >= n {
            proof {
                assert(text@.skip(pos as int) =~= Seq::<char>::empty());
                assert(acc@ + Seq::<char>::empty() =~= acc@);
            }
            return Some(acc);
        }
        let ghost u = text@.skip(pos as int);
        let ghost acc0 = acc@;
        let c = text.get_char(pos);
        proof {
            assert(u[0] == text@[pos as int]);
        }
        if c != '&' {
            push_char(&mut acc, c);
            proof {
                assert(u.drop_first() =~= text@.skip(pos as int + 1));
                assert(acc@ =~= acc0 + seq![c]);
                match decode_entities(text@.skip(pos as int + 1)) {
                    Some(r) => {
                        assert(acc0 + (seq![c] + r) =~= (acc0 + seq![c]) + r);
                    },
                    None => {},
                }
            }
            pos = pos + 1;
        } else {
            let amp = n - pos >= 5 && region_matches(text, n, pos, pos + 5, "&amp;");
            let lt = !amp && n - pos >= 4 && region_matches(text, n, pos, pos + 4, "&lt;");
            let gt = !amp && !lt && n - pos >= 4 && region_matches(text, n, pos, pos + 4, "&gt;");
            let apos = !amp && !lt && !gt && n - pos >= 6 && region_matches(
                text,
                n,
                pos,
                pos + 6,
                "&apos;",
            );
            let quot = !amp && !lt && !gt && !apos && n - pos >= 6 && region_matches(
                text,
                n,
                pos,
                pos + 6,
                "&quot;",
            );
            proof {
                reveal_strlit("&amp;");
                reveal_strlit("&lt;");
                reveal_strlit("&gt;");
                reveal_strlit("&apos;");
                reveal_strlit("&quot;");
                assert("&amp;"@ =~= amp_ref());
                assert("&lt;"@ =~= lt_ref());
                assert("&gt;"@ =~= gt_ref());
                assert("&apos;"@ =~= apos_ref());
                assert("&quot;"@ =~= quot_ref());
                if u.len() >= 5 {
                    assert(u.subrange(0, 5) =~= text@.subrange(pos as int, pos as int + 5));
                }
                if u.len() >= 4 {
                    assert(u.subrange(0, 4) =~= text@.subrange(pos as int, pos as int + 4));
                }
                if u.len() >= 6 {
                    assert(u.subrange(0, 6) =~= text@.subrange(pos as int, pos as int + 6));
                }
            }
            let decoded: char;
            let width: usize;
            if amp {
                decoded = '&';
                width = 5;
            } else if lt {
                decoded = '<';
                width = 4;
            } else if gt {
                decoded = '>';
                width = 4;
            } else if apos {
                decoded = '\'';
                width = 6;
            } else if quot {
                decoded = '"';
                width = 6;
            } else {
                return None;
            }
            push_char(&mut acc, decoded);
            proof {
                assert(u.skip(width as int) =~= text@.skip(pos as int + width as int));
                assert(acc@ =~= acc0 + seq![decoded]);
                match decode_entities(text@.skip(pos as int + width as int)) {
                    Some(r) => {
                        assert(acc0 + (seq![decoded] + r) =~= (acc0 + seq![decoded]) + r);
                    },
                    None => {},
                }
            }
            pos = pos + width;
        }
    }
}

/// Parses the children of a `url` element starting just past its opening
/// tag, returning the index just past `</url>` and the `loc` text.
fn exec_url_children(s: &str, n: usize, i: usize) -> (r: Option<(usize, String)>)
    requires
        n == s@.len(),
        i <= n,
    ensures
        match r {
            Some((k, loc)) => spec_url_children(s@, i as int, None) == Some((k as int, loc@)) && i
                < k <= n,
            None => spec_url_children(s@, i as int, None) is None,
        },
{
    let mut cur = i;
    let mut found: Option<String> = None;
    loop
        invariant
            i <= cur <= n,
            n == s@.len(),
            spec_url_children(s@, i as int, None) == spec_url_children(
                s@,
                cur as int,
                opt_view(found),
            ),
        decreases n - cur,
    {
        let j = exec_skip_misc(s, n, cur);
        if j < n && n - j >= 2 && s.get_char(j) == '<' && s.get_char(j + 1) == '/' {
            match exec_close_tag_lit(s, n, j, "url") {
                Some(k) => {
                    proof {
                        reveal_strlit("url");
                        assert("url"@ =~= url_name());
                    }
                    match found {
                        Some(loc) => {
                            return Some((k, loc));
                        },
                        None => {
                            return None;
                        },
                    }
                },
                None => {
                    proof {
                        reveal_strlit("url");
                        assert("url"@ =~= url_name());
                    }
                    return None;
                },
            }
        } else {
            match exec_open_tag(s, n, j) {
                None => {
                    return None;
                },
                Some((ne, after, self_closing)) => {
                    if region_matches(s, n, j + 1, ne, "loc") {
                        proof {
                            reveal_strlit("loc");
                            assert("loc"@ =~= loc_name());
                        }
                        if found.is_some() {
                            return None;
                        }
                        if self_closing {
                            let empty_loc = String::new();
                            assert(empty_loc@ =~= Seq::<char>::empty());
                            found = Some(empty_loc);
                            cur = after;
                        } else {
                            let t = exec_scan_lt(s, n, after);
                            match exec_close_tag_lit(s, n, t, "loc") {
                                Some(m) => {
                                    let raw = s.substring_char(after, t);
                                    match exec_decode_entities(raw) {
                                        Some(loc) => {
                                            found = Some(loc);
                                            cur = m;
                                        },
                                        None => {
                                            return None;
                                        },
                                    }
                                },
                                None => {
                                    return None;
                                },
                            }
                        }
                    } else {
                        proof {
                            reveal_strlit("loc");
                            assert("loc"@ =~= loc_name());
                        }
                        if self_closing {
                            cur = after;
                        } else {
                            match exec_skip_element(s, n, after, j + 1, ne) {
                                Some(m) => {
                                    cur = m;
                                },
                                None => {
                                    return None;
                                },
                            }
                        }
                    }
                },
            }
        }
    }
}

/// Extracts the page addresses of a sitemap document: one string per
/// `url` element, in document order.
///
/// Returns `Ok` with exactly the `loc` texts — predefined references
/// resolved — of a document matching the accepted urlset shape (an
/// empty urlset yields an empty list), and `Err(ParseError)` — with no
/// partial list — for every other input.
pub fn extract_urls(sitemap_str: &str) -> (r: Result<Vec<String>, ParseError>)
    ensures
        match r {
            Ok(urls) => spec_extract_urls(sitemap_str@) == Some(views_of(urls@)),
            Err(_) => spec_extract_urls(sitemap_str@) is None,
        },
{
    let s = sitemap_str;
    let n = s.unicode_len();
    let i0 = exec_skip_ws(s, n, 0);
    let i1 = match exec_after_prolog(s, n, i0) {
        Some(i1) => i1,
        None => {
            return Err(ParseError);
        },
    };
    let i2 = exec_skip_misc(s, n, i1);
    let i3: usize;
    if i2 < n && n - i2 >= 2 && s.get_char(i2) == '<' && s.get_char(i2 + 1) == '!' {
        let g = exec_scan_tag_end(s, n, i2 + 2);
        if g < n && s.get_char(g) == '>' {
            i3 = g + 1;
        } else {
            return Err(ParseError);
        }
    } else {
        i3 = i2;
    }
    let i4 = exec_skip_misc(s, n, i3);
    match exec_open_tag(s, n, i4) {
        None => Err(ParseError),
        Some((ne, k, self_closing)) => {
            if !region_matches(s, n, i4 + 1, ne, "urlset") {
                proof {
                    reveal_strlit("urlset");
                    assert("urlset"@ =~= urlset_name());
                }
                return Err(ParseError);
            }
            proof {
                reveal_strlit("urlset");
                assert("urlset"@ =~= urlset_name());
            }
            if self_closing {
                let rest = exec_skip_misc(s, n, k);
                if rest == n {
                    let urls: Vec<String> = Vec::new();
                    proof {
                        assert(views_of(urls@) =~= Seq::<Seq<char>>::empty());
                    }
                    Ok(urls)
                } else {
                    Err(ParseError)
                }
            } else {
                let mut urls: Vec<String> = Vec::new();
                let mut cur = k;
                proof {
                    assert(views_of(urls@) =~= Seq::<Seq<char>>::empty());
                }
                loop
                    invariant
                        cur <= n,
                        n == s@.len(),
                        s@ == sitemap_str@,
                        spec_extract_urls(s@) == spec_root_children(
                            s@,
                            cur as int,
                            views_of(urls@),
                        ),
                    decreases n - cur,
                {
                    let j = exec_skip_misc(s, n, cur);
                    if j < n && n - j >= 2 && s.get_char(j) == '<' && s.get_char(j + 1) == '/' {
                        proof {
                            reveal_strlit("urlset");
                            assert("urlset"@ =~= urlset_name());
                        }
                        match exec_close_tag_lit(s, n, j, "urlset") {
                            Some(k2) => {
                                let rest = exec_skip_misc(s, n, k2);
                                if rest == n {
                                    return Ok(urls);
                                } else {
                                    return Err(ParseError);
                                }
                            },
                            None => {
                                return Err(ParseError);
                            },
                        }
                    } else {
                        match exec_open_tag(s, n, j) {
                            None => {
                                return Err(ParseError);
                            },
                            Some((ne2, after, sc2)) => {
                                if region_matches(s, n, j + 1, ne2, "url") {
                                    proof {
                                        reveal_strlit("url");
                                        assert("url"@ =~= url_name());
                                    }
                                    if sc2 {
                                        return Err(ParseError);
                                    }
                                    match exec_url_children(s, n, after) {
                                        Some((m, loc)) => {
                                            proof {
                                                lemma_views_of_push(urls@, loc);
                                            }
                                            urls.push(loc);
                                            cur = m;
                                        },
                                        None => {
                                            return Err(ParseError);
                                        },
                                    }
                                } else {
                                    proof {
                                        reveal_strlit("url");
                                        assert("url"@ =~= url_name());
                                    }
                                    if sc2 {
                                        cur = after;
                                    } else {
                                        match exec_skip_element(s, n, after, j + 1, ne2) {
                                            Some(m) => {
                                                cur = m;
                                            },
                                            None => {
                                                return Err(ParseError);
                                            },
                                        }
                                    }
                                }
                            },
                        }
                    }
                }
            }
        },
    }
}

// ---------------------------------------------------------------------------
// The extraction law: a well-formed document with one url element per
// location yields exactly those locations, in document order.  The
// family of witnesses is the canonical rendering below: a bare urlset,
// one url element per location.
// ---------------------------------------------------------------------------

/// Text that can stand as a loc value: free of `<` and `&`.
pub open spec fn loc_text_ok(u: Seq<char>) -> bool {
    forall|k: int| 0 <= k < u.len() ==> u[k] != '<' && u[k] != '&'
}

/// One rendered url element: `<url><loc>` u `</loc></url>`.
pub open spec fn spec_render_entry(u: Seq<char>) -> Seq<char> {
    seq!['<', 'u', 'r', 'l', '>', '<', 'l', 'o', 'c', '>'] + u + seq![
        '<',
        '/',
        'l',
        'o',
        'c',
        '>',
        '<',
        '/',
        'u',
        'r',
        'l',
        '>',
    ]
}

/// The rendered url elements of a location list, in order.
pub open spec fn spec_render_items(urls: Seq<Seq<char>>) -> Seq<char>
    decreases urls.len(),
{
    if urls.len() == 0 {
        Seq::<char>::empty()
    } else {
        spec_render_entry(urls[0]) + spec_render_items(urls.drop_first())
    }
}

/// The canonical document for a location list: a bare urlset holding
/// one url element per location, without prolog, attributes or
/// whitespace.
pub open spec fn spec_render(urls: Seq<Seq<char>>) -> Seq<char> {
    seq!['<', 'u', 'r', 'l', 's', 'e', 't', '>'] + spec_render_items(urls) + seq![
        '<',
        '/',
        'u',
        'r',
        'l',
        's',
        'e',
        't',
        '>',
    ]
}

proof fn lemma_scan_name_end_run(s: Seq<char>, i: int, name: Seq<char>)
    requires
        0 <= i,
        i + name.len() <= s.len(),
        forall|k: int| 0 <= k < name.len() ==> s[i + k] == name[k] && is_name_char(#[trigger] name[k]),
        i + name.len() == s.len() || !is_name_char(s[i + name.len()]),
    ensures
        scan_name_end(s, i) == i + name.len(),
    decreases name.len(),
{
    if name.len() == 0 {
    } else {
        assert(s[i + 0] == name[0] && is_name_char(name[0]));
        let tail = name.drop_first();
        assert forall|k: int| 0 <= k < tail.len() implies s[i + 1 + k] == tail[k] && is_name_char(
            #[trigger] tail[k],
        ) by {
            assert(tail[k] == name[k + 1]);
            assert(s[i + (k + 1)] == name[k + 1] && is_name_char(name[k + 1]));
            assert(i + (k + 1) == i + 1 + k);
        }
        lemma_scan_name_end_run(s, i + 1, tail);
    }
}

proof fn lemma_scan_lt_run(s: Seq<char>, i: int, m: int)
    requires
        0 <= i,
        0 <= m,
        i + m <= s.len(),
        forall|k: int| 0 <= k < m ==> #[trigger] s[i + k] != '<',
        i + m == s.len() || s[i + m] == '<',
    ensures
        scan_lt(s, i) == i + m,
    decreases m,
{
    if m > 0 {
        assert(s[i + 0] != '<');
        assert forall|k: int| 0 <= k < m - 1 implies #[trigger] s[i + 1 + k] != '<' by {
            assert(s[i + (k + 1)] != '<');
            assert(i + (k + 1) == i + 1 + k);
        }
        lemma_scan_lt_run(s, i + 1, m - 1);
    }
}

proof fn lemma_open_tag_exact(s: Seq<char>, i: int, name: Seq<char>)
    requires
        0 <= i,
        i + name.len() + 2 <= s.len(),
        name.len() > 0,
        s[i] == '<',
        forall|k: int| 0 <= k < name.len() ==> s[i + 1 + k] == name[k] && is_name_char(
            #[trigger] name[k],
        ),
        s[i + 1 + name.len()] == '>',
    ensures
        spec_open_tag(s, i) == Some((name, i + name.len() + 2, false)),
{
    assert(!is_name_char('>'));
    assert forall|k: int| 0 <= k < name.len() implies s[i + 1 + k] == name[k] && is_name_char(
        #[trigger] name[k],
    ) by {}
    lemma_scan_name_end_run(s, i + 1, name);
    let ne = i + 1 + name.len();
    assert(scan_name_end(s, i + 1) == ne);
    assert(scan_tag_end(s, ne) == ne);
    assert forall|k: int| 0 <= k < name.len() implies s.subrange(i + 1, ne)[k] == name[k] by {
        assert(s[i + 1 + k] == name[k]);
    }
    assert(s.subrange(i + 1, ne) =~= name);
}

proof fn lemma_close_tag_exact(s: Seq<char>, i: int, name: Seq<char>)
    requires
        0 <= i,
        i + name.len() + 3 <= s.len(),
        name.len() > 0,
        s[i] == '<',
        s[i + 1] == '/',
        forall|k: int| 0 <= k < name.len() ==> s[i + 2 + k] == name[k] && is_name_char(
            #[trigger] name[k],
        ),
        s[i + 2 + name.len()] == '>',
    ensures
        spec_close_tag(s, i, name) == Some(i + name.len() + 3),
{
    assert(!is_name_char('>'));
    lemma_scan_name_end_run(s, i + 2, name);
    let ne = i + 2 + name.len();
    assert forall|k: int| 0 <= k < name.len() implies s.subrange(i + 2, ne)[k] == name[k] by {
        assert(s[i + 2 + k] == name[k]);
    }
    assert(s.subrange(i + 2, ne) =~= name);
    assert(!is_xml_ws('>'));
    assert(skip_ws(s, ne) == ne);
}

proof fn lemma_parse_entry(s: Seq<char>, i: int, u: Seq<char>)
    requires
        loc_text_ok(u),
        0 <= i,
        i + 22 + u.len() <= s.len(),
        s.subrange(i, i + 22 + u.len()) == spec_render_entry(u),
    ensures
        spec_open_tag(s, i) == Some((url_name(), i + 5, false)),
        spec_url_children(s, i + 5, None) == Some((i + 22 + u.len(), u)),
        s[i] == '<',
        s[i + 1] == 'u',
{
    let ulen = u.len() as int;
    let entry = spec_render_entry(u);
    assert forall|k: int| 0 <= k < 22 + ulen implies s[i + k] == #[trigger] entry[k] by {
        assert(s.subrange(i, i + 22 + ulen)[k] == entry[k]);
    }
    // the concrete characters around the loc text
    assert(s[i] == '<' && s[i + 1] == 'u' && s[i + 2] == 'r' && s[i + 3] == 'l' && s[i + 4]
        == '>') by {
        assert(s[i + 0] == entry[0] && s[i + 1] == entry[1] && s[i + 2] == entry[2] && s[i + 3]
            == entry[3] && s[i + 4] == entry[4]);
    }
    assert(s[i + 5] == '<' && s[i + 6] == 'l' && s[i + 7] == 'o' && s[i + 8] == 'c' && s[i + 9]
        == '>') by {
        assert(s[i + 5] == entry[5] && s[i + 6] == entry[6] && s[i + 7] == entry[7] && s[i + 8]
            == entry[8] && s[i + 9] == entry[9]);
    }
    assert forall|k: int| 0 <= k < ulen implies #[trigger] s[i + 10 + k] != '<' by {
        assert(entry[10 + k] == u[k]);
        assert(s[i + (10 + k)] == entry[10 + k]);
        assert(i + (10 + k) == i + 10 + k);
    }
    let t = i + 10 + ulen;
    assert(s[t] == '<' && s[t + 1] == '/' && s[t + 2] == 'l' && s[t + 3] == 'o' && s[t + 4] == 'c'
        && s[t + 5] == '>') by {
        assert(s[i + (10 + ulen)] == entry[10 + ulen] && s[i + (11 + ulen)] == entry[11 + ulen]
            && s[i + (12 + ulen)] == entry[12 + ulen] && s[i + (13 + ulen)] == entry[13 + ulen]
            && s[i + (14 + ulen)] == entry[14 + ulen] && s[i + (15 + ulen)] == entry[15 + ulen]);
    }
    let m = t + 6;
    assert(s[m] == '<' && s[m + 1] == '/' && s[m + 2] == 'u' && s[m + 3] == 'r' && s[m + 4] == 'l'
        && s[m + 5] == '>') by {
        assert(s[i + (16 + ulen)] == entry[16 + ulen] && s[i + (17 + ulen)] == entry[17 + ulen]
            && s[i + (18 + ulen)] == entry[18 + ulen] && s[i + (19 + ulen)] == entry[19 + ulen]
            && s[i + (20 + ulen)] == entry[20 + ulen] && s[i + (21 + ulen)] == entry[21 + ulen]);
    }
    // the url opening tag
    assert(url_name().len() == 3 && url_name()[0] == 'u' && url_name()[1] == 'r' && url_name()[2]
        == 'l');
    assert(loc_name().len() == 3 && loc_name()[0] == 'l' && loc_name()[1] == 'o' && loc_name()[2]
        == 'c');
    assert forall|k: int| 0 <= k < 3 implies s[i + 1 + k] == url_name()[k] && is_name_char(
        #[trigger] url_name()[k],
    ) by {}
    lemma_open_tag_exact(s, i, url_name());
    // the loc element
    assert(!is_xml_ws('<'));
    assert(skip_ws(s, i + 5) == i + 5);
    assert(!is_comment_start(s, i + 5));
    assert(skip_misc(s, i + 5) == i + 5);
    assert forall|k: int| 0 <= k < 3 implies s[i + 5 + 1 + k] == loc_name()[k] && is_name_char(
        #[trigger] loc_name()[k],
    ) by {}
    lemma_open_tag_exact(s, i + 5, loc_name());
    lemma_scan_lt_run(s, i + 10, ulen);
    assert(scan_lt(s, i + 10) == t);
    assert forall|k: int| 0 <= k < 3 implies s[t + 2 + k] == loc_name()[k] && is_name_char(
        #[trigger] loc_name()[k],
    ) by {}
    lemma_close_tag_exact(s, t, loc_name());
    assert(spec_close_tag(s, t, loc_name()) == Some(m));
    assert forall|k: int| 0 <= k < ulen implies s.subrange(i + 10, t)[k] == u[k] by {
        assert(entry[10 + k] == u[k]);
        assert(s[i + (10 + k)] == entry[10 + k]);
    }
    assert(s.subrange(i + 10, t) =~= u);
    lemma_decode_entities_plain(u);
    assert(decode_entities(s.subrange(i + 10, t)) == Some(u));
    // the url closing tag
    assert(skip_ws(s, m) == m);
    assert(!is_comment_start(s, m));
    assert(skip_misc(s, m) == m);
    assert forall|k: int| 0 <= k < 3 implies s[m + 2 + k] == url_name()[k] && is_name_char(
        #[trigger] url_name()[k],
    ) by {}
    lemma_close_tag_exact(s, m, url_name());
    assert(spec_close_tag(s, m, url_name()) == Some(m + 6));
    // evaluate the children: first the loc element, then the closing tag
    assert(spec_url_children(s, m, Some(u)) == Some((m + 6, u)));
    assert(spec_url_children(s, i + 5, None) == spec_url_children(s, m, Some(u)));
}

proof fn lemma_parse_items(s: Seq<char>, i: int, urls: Seq<Seq<char>>, acc: Seq<Seq<char>>)
    requires
        forall|k: int| 0 <= k < urls.len() ==> loc_text_ok(#[trigger] urls[k]),
        0 <= i <= s.len(),
        s.len() - i == spec_render_items(urls).len() + 9,
        s.subrange(i, s.len() as int) == spec_render_items(urls) + seq![
            '<',
            '/',
            'u',
            'r',
            'l',
            's',
            'e',
            't',
            '>',
        ],
    ensures
        spec_root_children(s, i, acc) == Some(acc + urls),
    decreases urls.len(),
{
    let close = seq!['<', '/', 'u', 'r', 'l', 's', 'e', 't', '>'];
    let items = spec_render_items(urls);
    assert forall|k: int| 0 <= k < items.len() + 9 implies s[i + k] == #[trigger] (items
        + close)[k] by {
        assert(s.subrange(i, s.len() as int)[k] == (items + close)[k]);
    }
    assert(urlset_name().len() == 6 && urlset_name()[0] == 'u' && urlset_name()[1] == 'r'
        && urlset_name()[2] == 'l' && urlset_name()[3] == 's' && urlset_name()[4] == 'e'
        && urlset_name()[5] == 't');
    if urls.len() == 0 {
        assert(s[i] == '<' && s[i + 1] == '/' && s[i + 8] == '>');
        assert(skip_ws(s, i) == i);
        assert(!is_comment_start(s, i));
        assert(skip_misc(s, i) == i);
        assert forall|k: int| 0 <= k < 6 implies s[i + 2 + k] == urlset_name()[k] && is_name_char(
            #[trigger] urlset_name()[k],
        ) by {
            assert(s[i + (2 + k)] == close[2 + k]);
        }
        lemma_close_tag_exact(s, i, urlset_name());
        assert(spec_close_tag(s, i, urlset_name()) == Some(i + 9));
        assert(skip_ws(s, s.len() as int) == s.len());
        assert(!is_comment_start(s, s.len() as int));
        assert(skip_misc(s, s.len() as int) == s.len());
        assert(acc + urls =~= acc);
    } else {
        let u0 = urls[0];
        let rest = urls.drop_first();
        let elen = 22 + u0.len() as int;
        assert(items == spec_render_entry(u0) + spec_render_items(rest));
        assert(loc_text_ok(u0));
        assert forall|k: int| 0 <= k < elen implies s.subrange(i, i + elen)[k]
            == #[trigger] spec_render_entry(u0)[k] by {
            assert(s[i + k] == (items + close)[k]);
            assert((items + close)[k] == items[k]);
            assert(items[k] == spec_render_entry(u0)[k]);
        }
        assert(s.subrange(i, i + elen) =~= spec_render_entry(u0));
        lemma_parse_entry(s, i, u0);
        let m = i + elen;
        // the recursive suffix
        assert forall|k: int| 0 <= k < s.len() - m implies s.subrange(m, s.len() as int)[k]
            == #[trigger] (spec_render_items(rest) + close)[k] by {
            assert(s[m + k] == (items + close)[elen + k]);
        }
        assert(s.subrange(m, s.len() as int) =~= spec_render_items(rest) + close);
        assert forall|k: int| 0 <= k < rest.len() implies loc_text_ok(#[trigger] rest[k]) by {
            assert(rest[k] == urls[k + 1]);
        }
        lemma_parse_items(s, m, rest, acc.push(u0));
        // evaluate this step of the recursion
        assert(!is_xml_ws('<'));
        assert(skip_ws(s, i) == i);
        assert(!is_comment_start(s, i));
        assert(skip_misc(s, i) == i);
        assert(spec_root_children(s, i, acc) == spec_root_children(s, m, acc.push(u0)));
        assert(acc.push(u0) + rest =~= acc + urls);
    }
}

/// Extraction law: the canonical document for any list of locations —
/// each free of `<` and `&` — extracts back to exactly that list: one
/// string per url element, in document order.
pub proof fn lemma_extract_render(urls: Seq<Seq<char>>)
    requires
        forall|k: int| 0 <= k < urls.len() ==> loc_text_ok(#[trigger] urls[k]),
    ensures
        spec_extract_urls(spec_render(urls)) == Some(urls),
{
    let s = spec_render(urls);
    let head = seq!['<', 'u', 'r', 'l', 's', 'e', 't', '>'];
    let close = seq!['<', '/', 'u', 'r', 'l', 's', 'e', 't', '>'];
    let items = spec_render_items(urls);
    assert(s[0] == '<' && s[1] == 'u' && s[2] == 'r' && s[3] == 'l' && s[4] == 's' && s[5] == 'e'
        && s[6] == 't' && s[7] == '>');
    assert(!is_xml_ws('<'));
    assert(skip_ws(s, 0) == 0);
    assert(spec_after_prolog(s, 0) == Some(0int));
    assert(!is_comment_start(s, 0));
    assert(skip_misc(s, 0) == 0);
    assert(spec_after_doctype(s, 0) == Some(0int));
    assert(urlset_name().len() == 6 && urlset_name()[0] == 'u' && urlset_name()[1] == 'r'
        && urlset_name()[2] == 'l' && urlset_name()[3] == 's' && urlset_name()[4] == 'e'
        && urlset_name()[5] == 't');
    assert forall|k: int| 0 <= k < 6 implies s[0 + 1 + k] == urlset_name()[k] && is_name_char(
        #[trigger] urlset_name()[k],
    ) by {}
    lemma_open_tag_exact(s, 0, urlset_name());
    assert(spec_open_tag(s, 0) == Some((urlset_name(), 8int, false)));
    assert forall|k: int| 0 <= k < s.len() - 8 implies s.subrange(8, s.len() as int)[k]
        == #[trigger] (items + close)[k] by {
        assert(s[8 + k] == (head + items + close)[8 + k]);
    }
    assert(s.subrange(8, s.len() as int) =~= items + close);
    lemma_parse_items(s, 8, urls, Seq::<Seq<char>>::empty());
    assert(Seq::<Seq<char>>::empty() + urls =~= urls);
}

} // verus!
