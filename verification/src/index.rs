//! Structure of an `index.md` reserved file: the frontmatter rule — none,
//! except a bundle-root `okf_version` — and whether a declared `okf_version` is
//! one this tool understands. Entry resolution is the bundle's job (it knows
//! the files an entry might point at); this module reads only the index's own
//! frontmatter.

use vstd::prelude::*;

use crate::concept::opt_str;
use crate::text::{str_is, string_from, strings_view};
use crate::yaml::{as_str, as_text, parse_yaml, yaml_document, Yaml};

verus! {

/// The OKF versions this crate reads: 0.2 (current) and 0.1 (which 0.2
/// supersedes with fallbacks).
pub open spec fn understood(version: Seq<char>) -> bool {
    version == "0.1"@ || version == "0.2"@
}

/// Whether `version` is an `okf_version` this crate reads. Any other declared
/// version is `UnknownOkfVersion` — a report, since best-effort consumption is
/// asked for, not rejection.
pub fn understands(version: &str) -> (r: bool)
    ensures
        r == understood(version@),
{
    str_is(version, "0.1") || str_is(version, "0.2")
}

/// How a key is named in a finding: its text, or `?` for a key that is not a
/// string.
pub open spec fn key_label(key: Yaml) -> Seq<char> {
    match as_str(key) {
        Some(s) => s,
        None => "?"@,
    }
}

/// Whether an entry is the one a root index may carry: `okf_version`.
pub open spec fn is_version_entry(key: Yaml, is_root: bool) -> bool {
    is_root && key_label(key) == "okf_version"@
}

/// The labels of the keys an index may not carry, in document order.
pub open spec fn illegal_keys_of(entries: Seq<(Yaml, Yaml)>, is_root: bool) -> Seq<Seq<char>>
    decreases entries.len(),
{
    if entries.len() == 0 {
        seq![]
    } else {
        let before = illegal_keys_of(entries.drop_last(), is_root);
        if is_version_entry(entries.last().0, is_root) {
            before
        } else {
            before.push(key_label(entries.last().0))
        }
    }
}

/// The last declared `okf_version` this crate does not read, if any: a
/// version is declared as a string or as a number, read by its written text.
pub open spec fn unknown_version_of(entries: Seq<(Yaml, Yaml)>, is_root: bool) -> Option<
    Seq<char>,
>
    decreases entries.len(),
{
    if entries.len() == 0 {
        None
    } else if is_version_entry(entries.last().0, is_root) && (as_text(entries.last().1) matches Some(
        v,
    ) && !understood(v)) {
        as_text(entries.last().1)
    } else {
        unknown_version_of(entries.drop_last(), is_root)
    }
}

/// The placeholder reported for a block that is present but not a mapping.
pub open spec fn unparseable_label() -> Seq<char> {
    "(unparseable frontmatter)"@
}

/// What an index's parsed frontmatter violates: the illegal key labels and an
/// unknown version. A mapping is read entry by entry; a null (empty) block
/// declares nothing; anything else — a scalar, a list, a tagged value, or text
/// that is not YAML — is one block the index may not carry.
pub open spec fn frontmatter_verdict(doc: Result<Yaml, Seq<char>>, is_root: bool) -> (
    Seq<Seq<char>>,
    Option<Seq<char>>,
) {
    match doc {
        Ok(Yaml::Mapping(entries)) => (
            illegal_keys_of(entries@, is_root),
            unknown_version_of(entries@, is_root),
        ),
        Ok(Yaml::Null) => (seq![], None),
        _ => (seq![unparseable_label()], None),
    }
}

/// A parse result taken by its view.
pub open spec fn document_view(doc: Result<Yaml, String>) -> Result<Yaml, Seq<char>> {
    match doc {
        Ok(v) => Ok(v),
        Err(e) => Err(e@),
    }
}

/// What an index's frontmatter block violates: keys it may not carry here, and
/// a declared `okf_version` this tool does not understand.
pub struct FrontmatterCheck {
    /// Keys present that are not allowed on this index.
    pub illegal_keys: Vec<String>,
    /// A declared `okf_version` outside {0.1, 0.2}.
    pub unknown_version: Option<String>,
}

/// The verdict on an already parsed frontmatter block (see
/// [`frontmatter_verdict`]).
pub fn check_document(doc: &Result<Yaml, String>, is_root: bool) -> (r: FrontmatterCheck)
    ensures
        (strings_view(r.illegal_keys@), opt_str(r.unknown_version)) == frontmatter_verdict(
            document_view(*doc),
            is_root,
        ),
{
    let entries = match doc {
        Ok(Yaml::Mapping(entries)) => entries,
        Ok(Yaml::Null) => {
            return FrontmatterCheck { illegal_keys: Vec::new(), unknown_version: None };
        },
        _ => {
            let mut illegal_keys: Vec<String> = Vec::new();
            illegal_keys.push(string_from("(unparseable frontmatter)"));
            proof {
                assert(strings_view(illegal_keys@) =~= seq![unparseable_label()]);
            }
            return FrontmatterCheck { illegal_keys, unknown_version: None };
        },
    };
    let mut illegal_keys: Vec<String> = Vec::new();
    let mut unknown_version: Option<String> = None;
    let mut i: usize = 0;
    while i < entries.len()
        invariant
            i <= entries@.len(),
            strings_view(illegal_keys@) == illegal_keys_of(entries@.take(i as int), is_root),
            opt_str(unknown_version) == unknown_version_of(entries@.take(i as int), is_root),
        decreases entries.len() - i,
    {
        let ghost upto = entries@.take(i + 1);
        assert(upto.drop_last() =~= entries@.take(i as int));
        assert(upto.last() == entries@[i as int]);
        let (key, value) = &entries[i];
        let label = match key.as_str() {
            Some(s) => s.clone(),
            None => string_from("?"),
        };
        assert(label@ == key_label(*key));
        if is_root && str_is(label.as_str(), "okf_version") {
            match value.as_text() {
                Some(v) => {
                    if !understands(v.as_str()) {
                        unknown_version = Some(v);
                    }
                },
                None => {},
            }
        } else {
            let ghost prev = strings_view(illegal_keys@);
            illegal_keys.push(label);
            assert(strings_view(illegal_keys@) =~= prev.push(key_label(*key)));
        }
        i += 1;
    }
    assert(entries@.take(i as int) =~= entries@);
    FrontmatterCheck { illegal_keys, unknown_version }
}

/// Check an index's frontmatter block. `is_root` is true only for the
/// bundle-root `index.md`, the one place a block — holding only `okf_version` —
/// is permitted. An empty block declares nothing and is fine; anything present
/// but unparseable is a block it may not carry.
pub fn check_frontmatter(frontmatter: &str, is_root: bool) -> (r: FrontmatterCheck)
    ensures
        (strings_view(r.illegal_keys@), opt_str(r.unknown_version)) == frontmatter_verdict(
            yaml_document(frontmatter@),
            is_root,
        ),
{
    let doc = parse_yaml(frontmatter);
    assert(document_view(doc) == yaml_document(frontmatter@));
    check_document(&doc, is_root)
}

} // verus!
