//! Import extraction: one file's text in, the specifier strings of its
//! default-import statements out.

use vstd::prelude::*;
use ast_grep_language::{LanguageExt, Tsx};

verus! {

/// The specifiers named by the import statements of a source text that match
/// the one recognised shape, `import <binding> from "<specifier>"`, in source
/// occurrence order. Extraction is a pure function of the text, so the
/// sequence is determined by it; no executable statement of its value exists
/// in this crate.
pub uninterp spec fn import_specifiers_of(code: Seq<char>) -> Seq<Seq<char>>;

/// Relies on ast_grep_core's tree search (through ast_grep_language::Tsx):
/// parsing the text with the TSX grammar and collecting, in source order, the
/// `$PATH` match of every occurrence of the pattern
/// `import $_ from "$PATH"` yields a value that depends on the text alone;
/// parsing never fails, so every text yields a (possibly empty) sequence.
#[verifier::external_body]
pub(crate) fn extract_imports(code: &String) -> (r: Vec<String>)
    ensures
        r@.map_values(|s: String| s@) == import_specifiers_of(code@),
{
    let sg = Tsx.ast_grep(code.as_str());
    let root = sg.root();
    root.find_all("import $_ from \"$PATH\"").filter_map(
        |m| m.get_env().get_match("PATH").map(|n| n.text().to_string()),
    ).collect()
}

} // verus!
