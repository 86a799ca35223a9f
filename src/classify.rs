//! Decides which languages a page is an entry of.
use vstd::prelude::*;
use vstd::string::StringSliceAdditionalSpecFns;
use vstd::utf8::encode_utf8;
use crate::bytes::{find_byte, lemma_position_of_bounds, position_of};
use crate::language_code::LanguageCode;
use crate::name_table::LanguageNameToCode;

verus! {

pub const MAIN_NAMESPACE_ID: i32 = 0;

pub const APPENDIX_NAMESPACE_ID: i32 = 100;

pub const RECONSTRUCTION_NAMESPACE_ID: i32 = 118;

/// The heading level at which a page names its languages.
pub const LANGUAGE_HEADING_LEVEL: u32 = 2;

pub const COLON: u8 = 58;

pub const SLASH: u8 = 47;

/// The kinds of namespace that the classifier tells apart.
#[derive(Clone, Copy, Debug, PartialEq, Eq)]
pub enum Namespace {
    Main,
    Appendix,
    Reconstruction,
    Other,
}

pub open spec fn namespace_of(id: i32) -> Namespace {
    if id == MAIN_NAMESPACE_ID {
        Namespace::Main
    } else if id == APPENDIX_NAMESPACE_ID {
        Namespace::Appendix
    } else if id == RECONSTRUCTION_NAMESPACE_ID {
        Namespace::Reconstruction
    } else {
        Namespace::Other
    }
}

impl Namespace {
    /// The kind of a namespace id.
    pub fn from_id(id: i32) -> (r: Namespace)
        ensures
            r == namespace_of(id),
    {
        if id == MAIN_NAMESPACE_ID {
            Namespace::Main
        } else if id == APPENDIX_NAMESPACE_ID {
            Namespace::Appendix
        } else if id == RECONSTRUCTION_NAMESPACE_ID {
            Namespace::Reconstruction
        } else {
            Namespace::Other
        }
    }
}

/// A heading among the top-level nodes of a page's parse, with its text.
pub struct Heading {
    pub level: u32,
    pub text: String,
}

/// A remark on a page that does not stop the run.
#[derive(Debug)]
pub enum Diagnostic {
    /// A level-2 heading whose text is not a known language name.
    UnrecognizedLanguageName { name: String, title: String },
    /// A reconstruction page whose title names no known language.
    NoLanguageInTitle { title: String },
}

/// The codes that a page's level-2 headings name, in order.
pub open spec fn heading_codes(table: Map<Seq<u8>, Seq<u8>>, hs: Seq<Heading>) -> Seq<Seq<u8>>
    decreases hs.len(),
{
    if hs.len() == 0 {
        seq![]
    } else {
        let h = hs.last();
        let name = encode_utf8(h.text@);
        heading_codes(table, hs.drop_last()) + if h.level == LANGUAGE_HEADING_LEVEL
            && table.contains_key(name) {
            seq![table[name]]
        } else {
            seq![]
        }
    }
}

/// The texts of a page's level-2 headings that name no known language.
pub open spec fn heading_misses(table: Map<Seq<u8>, Seq<u8>>, hs: Seq<Heading>) -> Seq<Seq<char>>
    decreases hs.len(),
{
    if hs.len() == 0 {
        seq![]
    } else {
        let h = hs.last();
        heading_misses(table, hs.drop_last()) + if h.level == LANGUAGE_HEADING_LEVEL
            && !table.contains_key(encode_utf8(h.text@)) {
            seq![h.text@]
        } else {
            seq![]
        }
    }
}

/// The language name in a title of the form `Prefix:Name/rest`: the second
/// colon-separated segment, up to its first slash. `None` where the title
/// has no colon.
pub open spec fn title_language_name(t: Seq<u8>) -> Option<Seq<u8>> {
    let c = position_of(t, COLON, 0);
    if c >= t.len() {
        None
    } else {
        let segment = t.subrange(c + 1, position_of(t, COLON, c + 1));
        Some(segment.take(position_of(segment, SLASH, 0)))
    }
}

/// The code of the language that a title names, if the table knows it.
pub open spec fn title_code(table: Map<Seq<u8>, Seq<u8>>, t: Seq<u8>) -> Option<Seq<u8>> {
    match title_language_name(t) {
        Some(name) => if table.contains_key(name) {
            Some(table[name])
        } else {
            None
        },
        None => None,
    }
}

/// The codes under which a page is listed.
pub open spec fn page_codes(
    ns: Namespace,
    table: Map<Seq<u8>, Seq<u8>>,
    title: Seq<char>,
    hs: Seq<Heading>,
) -> Seq<Seq<u8>> {
    match ns {
        Namespace::Main => heading_codes(table, hs),
        Namespace::Appendix | Namespace::Reconstruction => match title_code(
            table,
            encode_utf8(title),
        ) {
            Some(c) => seq![c],
            None => seq![],
        },
        Namespace::Other => seq![],
    }
}

/// Whether `ds` are the diagnostics owed for a page.
pub open spec fn page_diagnostics(
    ds: Seq<Diagnostic>,
    ns: Namespace,
    table: Map<Seq<u8>, Seq<u8>>,
    title: Seq<char>,
    hs: Seq<Heading>,
) -> bool {
    match ns {
        Namespace::Main => {
            let misses = heading_misses(table, hs);
            &&& ds.len() == misses.len()
            &&& forall|i: int|
                0 <= i < ds.len() ==> (#[trigger] ds[i] matches Diagnostic::UnrecognizedLanguageName {
                    name,
                    title: t,
                } && name@ == misses[i] && t@ == title)
        },
        Namespace::Reconstruction => if title_code(table, encode_utf8(title)) is None {
            ds.len() == 1 && (ds[0] matches Diagnostic::NoLanguageInTitle { title: t } && t@
                == title)
        } else {
            ds.len() == 0
        },
        _ => ds.len() == 0,
    }
}

/// The codes of a sequence of language codes.
pub open spec fn code_views(cs: Seq<LanguageCode>) -> Seq<Seq<u8>> {
    cs.map_values(|c: LanguageCode| c@)
}

/// What the classifier found on one page.
pub struct Classification {
    pub codes: Vec<LanguageCode>,
    pub diagnostics: Vec<Diagnostic>,
}

/// Finds the bounds of the language name in a title, as bytes.
fn find_title_language_name(t: &[u8]) -> (r: Option<(usize, usize)>)
    ensures
        match title_language_name(t@) {
            Some(name) => r matches Some((lo, hi)) && lo <= hi <= t@.len() && t@.subrange(
                lo as int,
                hi as int,
            ) == name,
            None => r is None,
        },
{
    let c = find_byte(t, COLON, 0);
    proof {
        lemma_position_of_bounds(t@, COLON, 0);
    }
    if c >= t.len() {
        return None;
    }
    let e = find_byte(t, COLON, c + 1);
    proof {
        lemma_position_of_bounds(t@, COLON, c + 1);
    }
    let segment = &t[c + 1..e];
    let s = find_byte(segment, SLASH, 0);
    proof {
        lemma_position_of_bounds(segment@, SLASH, 0);
        assert(t@.subrange(c + 1, (c + 1 + s) as int) =~= segment@.take(s as int));
    }
    Some((c + 1, c + 1 + s))
}

/// The codes that a page's level-2 headings name, with a diagnostic for
/// each such heading that names no known language. Only the headings given
/// are read: those at the top level of the page's parse.
pub fn classify_headings(
    table: &LanguageNameToCode,
    title: &str,
    headings: &[Heading],
) -> (r: Classification)
    ensures
        code_views(r.codes@) == heading_codes(table@, headings@),
        page_diagnostics(r.diagnostics@, Namespace::Main, table@, title@, headings@),
{
    let mut codes: Vec<LanguageCode> = Vec::new();
    let mut diagnostics: Vec<Diagnostic> = Vec::new();
    let mut i: usize = 0;
    while i < headings.len()
        invariant
            0 <= i <= headings@.len(),
            code_views(codes@) == heading_codes(table@, headings@.take(i as int)),
            page_diagnostics(
                diagnostics@,
                Namespace::Main,
                table@,
                title@,
                headings@.take(i as int),
            ),
        decreases headings@.len() - i,
    {
        let h = &headings[i];
        proof {
            assert(headings@.take(i + 1).drop_last() =~= headings@.take(i as int));
            assert(headings@.take(i + 1).last() == headings@[i as int]);
        }
        if h.level == LANGUAGE_HEADING_LEVEL {
            match table.get(h.text.as_str()) {
                Some(code) => {
                    let ghost before = codes@;
                    codes.push(code);
                    assert(code_views(codes@) =~= code_views(before) + seq![code@]);
                    let ghost misses = heading_misses(table@, headings@.take(i + 1));
                    assert(misses =~= heading_misses(table@, headings@.take(i as int)));
                },
                None => {
                    let ghost before = diagnostics@;
                    diagnostics.push(
                        Diagnostic::UnrecognizedLanguageName {
                            name: h.text.clone(),
                            title: title.to_owned(),
                        },
                    );
                    assert(code_views(codes@) =~= heading_codes(table@, headings@.take(i + 1)));
                    let ghost misses = heading_misses(table@, headings@.take(i + 1));
                    assert(misses =~= heading_misses(table@, headings@.take(i as int)).push(
                        h.text@,
                    ));
                    assert(diagnostics@ =~= before.push(diagnostics@.last()));
                    assert forall|k: int| 0 <= k < diagnostics@.len() implies (
                    #[trigger] diagnostics@[k] matches Diagnostic::UnrecognizedLanguageName {
                        name,
                        title: t,
                    } && name@ == misses[k] && t@ == title@) by {
                        if k < before.len() {
                            assert(diagnostics@[k] == before[k]);
                        }
                    }
                },
            }
        } else {
            assert(code_views(codes@) =~= heading_codes(table@, headings@.take(i + 1)));
            assert(heading_misses(table@, headings@.take(i as int)) =~= heading_misses(
                table@,
                headings@.take(i + 1),
            ));
        }
        i = i + 1;
    }
    assert(headings@.take(i as int) =~= headings@);
    Classification { codes, diagnostics }
}

/// The code that a page title names by its `Prefix:Name/rest` form, with a
/// diagnostic where it names none and `report_miss` asks for one.
pub fn classify_title(table: &LanguageNameToCode, title: &str, report_miss: bool) -> (r:
    Classification)
    ensures
        code_views(r.codes@) == match title_code(table@, title.spec_bytes()) {
            Some(c) => seq![c],
            None => Seq::<Seq<u8>>::empty(),
        },
        report_miss && title_code(table@, title.spec_bytes()) is None ==> (r.diagnostics@.len() == 1
            && (r.diagnostics@[0] matches Diagnostic::NoLanguageInTitle { title: t } && t@
            == title@)),
        !(report_miss && title_code(table@, title.spec_bytes()) is None) ==> r.diagnostics@.len()
            == 0,
{
    let t = title.as_bytes();
    let mut codes: Vec<LanguageCode> = Vec::new();
    let mut diagnostics: Vec<Diagnostic> = Vec::new();
    let found = match find_title_language_name(t) {
        Some((lo, hi)) => table.get_bytes(&t[lo..hi]),
        None => None,
    };
    match found {
        Some(code) => {
            codes.push(code);
            assert(code_views(codes@) =~= seq![code@]);
        },
        None => {
            assert(code_views(codes@) =~= Seq::<Seq<u8>>::empty());
            if report_miss {
                diagnostics.push(Diagnostic::NoLanguageInTitle { title: title.to_owned() });
            }
        },
    }
    Classification { codes, diagnostics }
}

/// Classifies a page by its namespace: a main page by its level-2 headings,
/// an appendix or reconstruction page by its title, any other page not at
/// all. Only a reconstruction page whose title names no known language gets
/// a diagnostic for it.
pub fn classify(
    table: &LanguageNameToCode,
    namespace: i32,
    title: &str,
    headings: &[Heading],
) -> (r: Classification)
    ensures
        code_views(r.codes@) == page_codes(namespace_of(namespace), table@, title@, headings@),
        page_diagnostics(r.diagnostics@, namespace_of(namespace), table@, title@, headings@),
{
    match Namespace::from_id(namespace) {
        Namespace::Main => classify_headings(table, title, headings),
        Namespace::Appendix => classify_title(table, title, false),
        Namespace::Reconstruction => classify_title(table, title, true),
        Namespace::Other => {
            let r = Classification { codes: Vec::new(), diagnostics: Vec::new() };
            assert(code_views(r.codes@) =~= Seq::<Seq<u8>>::empty());
            r
        },
    }
}

} // verus!
