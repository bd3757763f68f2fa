//! Reading import declarations out of ECMAScript source text, and turning
//! them into graph nodes.
use vstd::prelude::*;
use swc_common::sync::Lrc;
use swc_common::{FileName, SourceMap};
use swc_ecma_ast::{ModuleDecl, ModuleItem};
use swc_ecma_parser::{lexer::Lexer, Parser, StringInput, Syntax};
use crate::graph::{resolve, resolved_node, FileNode};

verus! {

#[verifier::external_type_specification]
#[verifier::external_body]
pub struct ExParseError(swc_ecma_parser::error::Error);

/// What swc's module parser makes of a source text: for each top-level item,
/// the source string of an import declaration or `None` for another item;
/// `None` as a whole where the text does not parse as a module.
pub uninterp spec fn parsed_items(text: Seq<char>) -> Option<Seq<Option<Seq<char>>>>;

pub open spec fn opt_view(o: Option<String>) -> Option<Seq<char>> {
    match o {
        Some(s) => Some(s@),
        None => None,
    }
}

/// Relies on swc_ecma_parser's `Parser::parse_module` (ECMAScript syntax, an
/// anonymous in-memory file): the module's items, each reduced to the source
/// of an import declaration or `None`; the parser's error otherwise.
#[verifier::external_body]
fn parse_module_items(text: &str) -> (r: Result<Vec<Option<String>>, swc_ecma_parser::error::Error>)
    ensures
        match r {
            Ok(v) => parsed_items(text@) == Some(v@.map_values(|o: Option<String>| opt_view(o))),
            Err(_) => parsed_items(text@) is None,
        },
{
    let cm: Lrc<SourceMap> = Default::default();
    let fm = cm.new_source_file(Lrc::new(FileName::Anon), text.to_string());
    let lexer = Lexer::new(Syntax::Es(Default::default()), Default::default(), StringInput::from(&*fm), None);
    let mut parser = Parser::new_from(lexer);
    parser.parse_module().map(|m| m.body.into_iter().map(|item| match item {
        ModuleItem::ModuleDecl(ModuleDecl::Import(i)) => Some(i.src.value.to_atom_lossy().to_string()),
        _ => None,
    }).collect())
}

/// Why a source file yields no imports.
#[derive(Clone, Copy, Debug, PartialEq, Eq, Structural)]
pub enum JsError {
    /// The text is not a well-formed module.
    Syntax,
}

/// The import sources among module items, in order.
pub open spec fn import_texts(items: Seq<Option<Seq<char>>>) -> Seq<Seq<char>>
    decreases items.len(),
{
    if items.len() == 0 {
        Seq::empty()
    } else {
        let prev = import_texts(items.drop_last());
        match items.last() {
            Some(s) => prev.push(s),
            None => prev,
        }
    }
}

/// Keeps the import sources of module items, in order.
pub fn collect_imports(items: Vec<Option<String>>) -> (r: Vec<String>)
    ensures
        r@.map_values(|s: String| s@) == import_texts(items@.map_values(|o: Option<String>| opt_view(o))),
{
    let ghost all = items@.map_values(|o: Option<String>| opt_view(o));
    let mut out: Vec<String> = Vec::new();
    let mut i: usize = 0;
    while i < items.len()
        invariant
            i <= items@.len(),
            all == items@.map_values(|o: Option<String>| opt_view(o)),
            out@.map_values(|s: String| s@) == import_texts(all.take(i as int)),
        decreases items@.len() - i,
    {
        assert(all.take(i + 1).drop_last() =~= all.take(i as int));
        assert(all.take(i + 1).last() == opt_view(items@[i as int]));
        match &items[i] {
            Some(s) => {
                let ghost before = out@;
                out.push(s.clone());
                assert(out@.map_values(|s: String| s@) =~= before.map_values(|s: String| s@).push(s@));
            },
            None => {},
        }
        i = i + 1;
    }
    assert(all.take(i as int) =~= all);
    out
}

/// The import specifiers of a source text, in source order, or
/// `JsError::Syntax` where it does not parse.
pub fn parse(text: &str) -> (r: Result<Vec<String>, JsError>)
    ensures
        match r {
            Ok(v) => parsed_items(text@) is Some && v@.map_values(|s: String| s@) == import_texts(
                parsed_items(text@)->0,
            ),
            Err(e) => e == JsError::Syntax && parsed_items(text@) is None,
        },
{
    match parse_module_items(text) {
        Ok(items) => Ok(collect_imports(items)),
        Err(_) => Err(JsError::Syntax),
    }
}

/// The nodes of a file's imports: `specifiers[i]` resolved with
/// `canonical[i]`, the canonical path of that specifier joined to the file's
/// directory where it exists.
pub fn get_dependencies(specifiers: &Vec<String>, canonical: &Vec<Option<String>>) -> (r: Vec<FileNode>)
    requires
        specifiers@.len() == canonical@.len(),
    ensures
        r@.len() == specifiers@.len(),
        forall|i: int| 0 <= i < r@.len() ==> #[trigger] r@[i]@ == resolved_node(
            specifiers@[i]@,
            opt_view(canonical@[i]),
        ),
{
    let mut out: Vec<FileNode> = Vec::new();
    let mut i: usize = 0;
    while i < specifiers.len()
        invariant
            specifiers@.len() == canonical@.len(),
            i <= specifiers@.len(),
            out@.len() == i,
            forall|k: int| 0 <= k < i ==> #[trigger] out@[k]@ == resolved_node(
                specifiers@[k]@,
                opt_view(canonical@[k]),
            ),
        decreases specifiers@.len() - i,
    {
        let c = match &canonical[i] {
            Some(p) => Some(p.clone()),
            None => None,
        };
        assert(opt_view(c) == opt_view(canonical@[i as int]));
        let node = resolve(specifiers[i].as_str(), c);
        out.push(node);
        i = i + 1;
    }
    out
}

} // verus!
