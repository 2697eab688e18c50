//! Rule files, read one after another into one list of directives.

use crate::parse::parse_all;
use crate::parse::source_directives;
use crate::parse::source_errors;
use crate::parse::ParseError;
use crate::rule::Directive;
use crate::rule::DirectiveView;
use vstd::prelude::*;

verus! {

/// The configuration that the Core Rule Set documents for running its own
/// regression suite, verbatim. The paranoia level is the load-bearing part: most
/// of the corpus exercises rules that the default level skips entirely.
pub const CRS_TEST_CONFIG: &'static str = "\nSecAction \"id:900005,  phase:1,  nolog,  pass,  ctl:ruleEngine=DetectionOnly,  ctl:ruleRemoveById=910000,  setvar:tx.blocking_paranoia_level=4,  setvar:tx.crs_validate_utf8_encoding=1,  setvar:tx.arg_name_length=100,  setvar:tx.arg_length=400,  setvar:tx.max_file_size=64100,  setvar:tx.combined_file_sizes=65535\"\n";

/// A rule file.
#[derive(Debug)]
pub struct Source {
    /// The name that its errors report.
    pub name: String,
    /// What it holds.
    pub text: String,
}

/// A rule file that does not parse.
#[derive(Debug)]
pub struct SourceErrors {
    /// Which of the files it is.
    pub position: usize,
    /// Everything that is wrong with it.
    pub errors: Vec<ParseError>,
}

/// A source with these contents.
pub open spec fn is_source(source: Source, name: Seq<char>, text: Seq<char>) -> bool {
    source.name@ == name && source.text@ == text
}

/// The order in which rule files are read: the setup file where there is one,
/// the regression configuration where it is asked for, and then every rule file.
pub fn in_order(setup: Option<String>, regression: bool, files: Vec<Source>) -> (r: Vec<Source>)
    ensures
        ({
            let first: int = if setup is Some {
                1
            } else {
                0
            };
            let before: int = if regression {
                first + 1
            } else {
                first
            };
            &&& r@.len() == before + files@.len()
            &&& setup is Some ==> is_source(r@[0], "crs-setup.conf"@, setup->Some_0@)
            &&& regression ==> is_source(r@[first], "crs-test-config"@, CRS_TEST_CONFIG@)
            &&& r@.skip(before) == files@
        }),
{
    let mut out: Vec<Source> = Vec::new();
    if let Some(text) = setup {
        out.push(Source { name: "crs-setup.conf".to_string(), text });
    }
    if regression {
        out.push(
            Source { name: "crs-test-config".to_string(), text: CRS_TEST_CONFIG.to_string() },
        );
    }
    let ghost before = out@;
    let mut files = files;
    let ghost all = files@;
    out.append(&mut files);
    assert(out@.skip(before.len() as int) =~= all);
    out
}

/// What the first `n` of some rule files hold, in order.
pub open spec fn gathered(sources: Seq<Source>, n: nat) -> Seq<DirectiveView>
    decreases n,
{
    if n == 0 {
        seq![]
    } else {
        gathered(sources, (n - 1) as nat) + source_directives(sources[n - 1].text@)
    }
}

/// Whether a rule file parses.
pub open spec fn is_clean(source: Source) -> bool {
    source_errors(source.text@, source.name@).len() == 0
}

/// Parse rule files into one list of directives. The first file that does not
/// parse refuses them all: a rule set that silently loses a rule turns that rule
/// into a bypass.
pub fn gather(sources: &Vec<Source>) -> (r: Result<Vec<Directive>, SourceErrors>)
    ensures
        (match r {
            Ok(directives) => directives.deep_view() == gathered(sources@, sources@.len())
                && forall|i: int| 0 <= i < sources@.len() ==> is_clean(#[trigger] sources@[i]),
            Err(e) => e.position < sources@.len() && !is_clean(sources@[e.position as int])
                && e.errors.deep_view() == source_errors(
                sources@[e.position as int].text@,
                sources@[e.position as int].name@,
            ) && forall|i: int| 0 <= i < e.position ==> is_clean(#[trigger] sources@[i]),
        }),
{
    let mut out: Vec<Directive> = Vec::new();
    let mut i: usize = 0;
    assert(out.deep_view() =~= seq![]);
    while i < sources.len()
        invariant
            i <= sources@.len(),
            out.deep_view() == gathered(sources@, i as nat),
            forall|k: int| 0 <= k < i ==> is_clean(#[trigger] sources@[k]),
        decreases sources@.len() - i,
    {
        let source = &sources[i];
        let (mut directives, errors) = parse_all(source.text.as_str(), source.name.as_str());
        assert(errors.deep_view().len() == errors@.len());
        if errors.len() > 0 {
            return Err(SourceErrors { position: i, errors });
        }
        let ghost done = out.deep_view();
        let ghost more = directives.deep_view();
        out.append(&mut directives);
        assert(out.deep_view() =~= done + more);
        i += 1;
    }
    Ok(out)
}

} // verus!
