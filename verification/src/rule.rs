//! The rule AST.
//!
//! A parsed rule set is data, not behaviour: parsing produces this tree, and
//! compilation turns it into an evaluable program. Keeping the two apart is
//! what lets an embedder compile ahead of time.
//!
//! Each type that holds text has a view of the same shape over `Seq`, reached
//! through `deep_view`; contracts speak of the views.

use crate::action::Action;
use crate::action::ActionView;
use crate::operator::Operator;
use crate::operator::OperatorView;
use crate::text::chars_of;
use crate::text::same;
use crate::text::to_upper;
use crate::text::upper;
use crate::Phase;
use vstd::prelude::*;

verus! {

/// One SecLang directive.
#[derive(Debug, Clone, PartialEq)]
pub enum Directive {
    /// `SecRule TARGETS "OPERATOR" "ACTIONS"`
    Rule(Rule),
    /// `SecAction "ACTIONS"`, a rule that always matches.
    Action(Rule),
    /// `SecMarker NAME`, a `skipAfter` jump destination.
    Marker(String),
    /// `SecComponentSignature SIGNATURE`
    ComponentSignature(String),
    /// `SecDefaultAction "phase:2,log,auditlog,pass"`
    ///
    /// Sets what `block` resolves to for rules that follow it. The Core Rule
    /// Set relies on this: its `block` rules are meant to score, not to deny,
    /// and the denial comes from the explicit `deny` in the
    /// blocking-evaluation rules.
    DefaultAction {
        /// The phase the default applies to.
        phase: Phase,
        /// The actions it sets.
        actions: Vec<Action>,
    },
}

/// The view of a [`Directive`].
#[verifier::ext_equal]
pub enum DirectiveView {
    Rule(RuleView),
    Action(RuleView),
    Marker(Seq<char>),
    ComponentSignature(Seq<char>),
    DefaultAction { phase: Phase, actions: Seq<ActionView> },
}

impl DeepView for Directive {
    type V = DirectiveView;

    open spec fn deep_view(&self) -> DirectiveView {
        match self {
            Directive::Rule(r) => DirectiveView::Rule(r.deep_view()),
            Directive::Action(r) => DirectiveView::Action(r.deep_view()),
            Directive::Marker(s) => DirectiveView::Marker(s@),
            Directive::ComponentSignature(s) => DirectiveView::ComponentSignature(s@),
            Directive::DefaultAction { phase, actions } => DirectiveView::DefaultAction {
                phase: *phase,
                actions: actions.deep_view(),
            },
        }
    }
}

/// A rule: what to inspect, what to test, what to do about it.
#[derive(Debug, Clone, PartialEq)]
pub struct Rule {
    /// The variables to inspect. Empty for `SecAction`.
    pub targets: Vec<Target>,
    /// The test to apply. `None` for `SecAction`, which always matches.
    pub operator: Option<Operator>,
    /// Whether the operator's result is inverted (`!@rx ...`).
    pub negated: bool,
    /// What to do when the rule matches.
    pub actions: Vec<Action>,
    /// 1-based line in the source file, for diagnostics.
    pub line: usize,
}

/// The view of a [`Rule`].
#[verifier::ext_equal]
pub struct RuleView {
    pub targets: Seq<TargetView>,
    pub operator: Option<OperatorView>,
    pub negated: bool,
    pub actions: Seq<ActionView>,
    pub line: usize,
}

impl DeepView for Rule {
    type V = RuleView;

    open spec fn deep_view(&self) -> RuleView {
        RuleView {
            targets: self.targets.deep_view(),
            operator: self.operator.deep_view(),
            negated: self.negated,
            actions: self.actions.deep_view(),
            line: self.line,
        }
    }
}

/// The number of the first `id:` action in a list.
pub open spec fn first_id(actions: Seq<ActionView>) -> Option<u32>
    decreases actions.len(),
{
    if actions.len() == 0 {
        None
    } else {
        match actions[0] {
            ActionView::Id(id) => Some(id),
            _ => first_id(actions.drop_first()),
        }
    }
}

impl Rule {
    /// The rule's `id:` action, if it declares one. Chained rules carry the id
    /// only on the chain starter.
    pub fn id(&self) -> (r: Option<u32>)
        ensures
            r == first_id(self.deep_view().actions),
    {
        let ghost all = self.actions.deep_view();
        let mut i: usize = 0;
        assert(all.skip(0) =~= all);
        while i < self.actions.len()
            invariant
                i <= self.actions@.len(),
                all == self.actions.deep_view(),
                first_id(all) == first_id(all.skip(i as int)),
            decreases self.actions@.len() - i,
        {
            assert(all.skip(i as int).drop_first() =~= all.skip(i + 1));
            assert(all.skip(i as int)[0] == self.actions@[i as int].deep_view());
            if let Action::Id(id) = &self.actions[i] {
                return Some(*id);
            }
            i += 1;
        }
        None
    }

    /// Whether this rule starts or continues a chain.
    pub fn is_chained(&self) -> (r: bool)
        ensures
            r == self.deep_view().actions.contains(ActionView::Chain),
    {
        let ghost all = self.actions.deep_view();
        let mut i: usize = 0;
        while i < self.actions.len()
            invariant
                i <= self.actions@.len(),
                all == self.actions.deep_view(),
                forall|j: int| 0 <= j < i ==> all[j] != ActionView::Chain,
            decreases self.actions@.len() - i,
        {
            assert(all[i as int] == self.actions@[i as int].deep_view());
            if let Action::Chain = &self.actions[i] {
                return true;
            }
            i += 1;
        }
        false
    }
}

/// A variable to inspect, such as `ARGS`, `ARGS:id` or `!REQUEST_COOKIES:/^__/`.
#[derive(Debug, Clone, PartialEq)]
pub struct Target {
    /// The collection being addressed.
    pub collection: Collection,
    /// Which members of the collection, when narrowed.
    pub selector: Option<Selector>,
    /// `!` prefix: remove these members from the set under inspection.
    pub exclusion: bool,
    /// `&` prefix: inspect the member count rather than the values.
    pub count: bool,
}

/// The view of a [`Target`].
#[verifier::ext_equal]
pub struct TargetView {
    pub collection: Collection,
    pub selector: Option<SelectorView>,
    pub exclusion: bool,
    pub count: bool,
}

impl DeepView for Target {
    type V = TargetView;

    open spec fn deep_view(&self) -> TargetView {
        TargetView {
            collection: self.collection,
            selector: self.selector.deep_view(),
            exclusion: self.exclusion,
            count: self.count,
        }
    }
}

/// How a target narrows a collection.
#[derive(Debug, Clone, PartialEq)]
pub enum Selector {
    /// `ARGS:username`, an exact member name.
    Name(String),
    /// `REQUEST_HEADERS:/^X-/`, a pattern over member names.
    Regex(String),
    /// `XML:/*`, an XPath expression. Only the `XML` collection is selected
    /// this way, and the expression is kept as authored.
    XPath(String),
}

/// The view of a [`Selector`].
#[verifier::ext_equal]
pub enum SelectorView {
    Name(Seq<char>),
    Regex(Seq<char>),
    XPath(Seq<char>),
}

impl DeepView for Selector {
    type V = SelectorView;

    open spec fn deep_view(&self) -> SelectorView {
        match self {
            Selector::Name(s) => SelectorView::Name(s@),
            Selector::Regex(s) => SelectorView::Regex(s@),
            Selector::XPath(s) => SelectorView::XPath(s@),
        }
    }
}

/// The collections the Core Rule Set addresses.
///
/// SecLang defines more. An unlisted collection fails parsing rather than
/// being ignored, because a target nobody inspects is a rule that cannot fire.
#[derive(Debug, Clone, Copy, PartialEq, Eq, Hash, Structural)]
pub enum Collection {
    Args,
    ArgsCombinedSize,
    ArgsGet,
    ArgsGetNames,
    ArgsNames,
    Files,
    FilesCombinedSize,
    FilesNames,
    MatchedVar,
    MatchedVars,
    MultipartPartHeaders,
    QueryString,
    ReqbodyProcessor,
    RemoteAddr,
    RequestBasename,
    RequestBody,
    RequestCookies,
    RequestCookiesNames,
    RequestFilename,
    RequestHeaders,
    RequestHeadersNames,
    RequestLine,
    RequestMethod,
    RequestProtocol,
    RequestUri,
    RequestUriRaw,
    ResponseBody,
    ResponseHeaders,
    ResponseStatus,
    Tx,
    UniqueId,
    Xml,
}

/// The collection that a name addresses, in any ASCII case.
pub open spec fn collection_named(name: Seq<char>) -> Option<Collection> {
    let n = upper(name);
    if n == "ARGS"@ {
        Some(Collection::Args)
    } else if n == "ARGS_COMBINED_SIZE"@ {
        Some(Collection::ArgsCombinedSize)
    } else if n == "ARGS_GET"@ {
        Some(Collection::ArgsGet)
    } else if n == "ARGS_GET_NAMES"@ {
        Some(Collection::ArgsGetNames)
    } else if n == "ARGS_NAMES"@ {
        Some(Collection::ArgsNames)
    } else if n == "FILES"@ {
        Some(Collection::Files)
    } else if n == "FILES_COMBINED_SIZE"@ {
        Some(Collection::FilesCombinedSize)
    } else if n == "FILES_NAMES"@ {
        Some(Collection::FilesNames)
    } else if n == "MATCHED_VAR"@ {
        Some(Collection::MatchedVar)
    } else if n == "MATCHED_VARS"@ {
        Some(Collection::MatchedVars)
    } else if n == "MULTIPART_PART_HEADERS"@ {
        Some(Collection::MultipartPartHeaders)
    } else if n == "QUERY_STRING"@ {
        Some(Collection::QueryString)
    } else if n == "REQBODY_PROCESSOR"@ {
        Some(Collection::ReqbodyProcessor)
    } else if n == "REMOTE_ADDR"@ {
        Some(Collection::RemoteAddr)
    } else if n == "REQUEST_BASENAME"@ {
        Some(Collection::RequestBasename)
    } else if n == "REQUEST_BODY"@ {
        Some(Collection::RequestBody)
    } else if n == "REQUEST_COOKIES"@ {
        Some(Collection::RequestCookies)
    } else if n == "REQUEST_COOKIES_NAMES"@ {
        Some(Collection::RequestCookiesNames)
    } else if n == "REQUEST_FILENAME"@ {
        Some(Collection::RequestFilename)
    } else if n == "REQUEST_HEADERS"@ {
        Some(Collection::RequestHeaders)
    } else if n == "REQUEST_HEADERS_NAMES"@ {
        Some(Collection::RequestHeadersNames)
    } else if n == "REQUEST_LINE"@ {
        Some(Collection::RequestLine)
    } else if n == "REQUEST_METHOD"@ {
        Some(Collection::RequestMethod)
    } else if n == "REQUEST_PROTOCOL"@ {
        Some(Collection::RequestProtocol)
    } else if n == "REQUEST_URI"@ {
        Some(Collection::RequestUri)
    } else if n == "REQUEST_URI_RAW"@ {
        Some(Collection::RequestUriRaw)
    } else if n == "RESPONSE_BODY"@ {
        Some(Collection::ResponseBody)
    } else if n == "RESPONSE_HEADERS"@ {
        Some(Collection::ResponseHeaders)
    } else if n == "RESPONSE_STATUS"@ {
        Some(Collection::ResponseStatus)
    } else if n == "TX"@ {
        Some(Collection::Tx)
    } else if n == "UNIQUE_ID"@ {
        Some(Collection::UniqueId)
    } else if n == "XML"@ {
        Some(Collection::Xml)
    } else {
        None
    }
}

impl Collection {
    /// Parse a collection name. Case-insensitive, as SecLang is.
    pub fn parse(name: &str) -> (r: Option<Self>)
        ensures
            r == collection_named(name@),
    {
        let upper_name = to_upper(chars_of(name).as_slice());
        let n = upper_name.as_slice();
        if same(n, "ARGS") {
            Some(Collection::Args)
        } else if same(n, "ARGS_COMBINED_SIZE") {
            Some(Collection::ArgsCombinedSize)
        } else if same(n, "ARGS_GET") {
            Some(Collection::ArgsGet)
        } else if same(n, "ARGS_GET_NAMES") {
            Some(Collection::ArgsGetNames)
        } else if same(n, "ARGS_NAMES") {
            Some(Collection::ArgsNames)
        } else if same(n, "FILES") {
            Some(Collection::Files)
        } else if same(n, "FILES_COMBINED_SIZE") {
            Some(Collection::FilesCombinedSize)
        } else if same(n, "FILES_NAMES") {
            Some(Collection::FilesNames)
        } else if same(n, "MATCHED_VAR") {
            Some(Collection::MatchedVar)
        } else if same(n, "MATCHED_VARS") {
            Some(Collection::MatchedVars)
        } else if same(n, "MULTIPART_PART_HEADERS") {
            Some(Collection::MultipartPartHeaders)
        } else if same(n, "QUERY_STRING") {
            Some(Collection::QueryString)
        } else if same(n, "REQBODY_PROCESSOR") {
            Some(Collection::ReqbodyProcessor)
        } else if same(n, "REMOTE_ADDR") {
            Some(Collection::RemoteAddr)
        } else if same(n, "REQUEST_BASENAME") {
            Some(Collection::RequestBasename)
        } else if same(n, "REQUEST_BODY") {
            Some(Collection::RequestBody)
        } else if same(n, "REQUEST_COOKIES") {
            Some(Collection::RequestCookies)
        } else if same(n, "REQUEST_COOKIES_NAMES") {
            Some(Collection::RequestCookiesNames)
        } else if same(n, "REQUEST_FILENAME") {
            Some(Collection::RequestFilename)
        } else if same(n, "REQUEST_HEADERS") {
            Some(Collection::RequestHeaders)
        } else if same(n, "REQUEST_HEADERS_NAMES") {
            Some(Collection::RequestHeadersNames)
        } else if same(n, "REQUEST_LINE") {
            Some(Collection::RequestLine)
        } else if same(n, "REQUEST_METHOD") {
            Some(Collection::RequestMethod)
        } else if same(n, "REQUEST_PROTOCOL") {
            Some(Collection::RequestProtocol)
        } else if same(n, "REQUEST_URI") {
            Some(Collection::RequestUri)
        } else if same(n, "REQUEST_URI_RAW") {
            Some(Collection::RequestUriRaw)
        } else if same(n, "RESPONSE_BODY") {
            Some(Collection::ResponseBody)
        } else if same(n, "RESPONSE_HEADERS") {
            Some(Collection::ResponseHeaders)
        } else if same(n, "RESPONSE_STATUS") {
            Some(Collection::ResponseStatus)
        } else if same(n, "TX") {
            Some(Collection::Tx)
        } else if same(n, "UNIQUE_ID") {
            Some(Collection::UniqueId)
        } else if same(n, "XML") {
            Some(Collection::Xml)
        } else {
            None
        }
    }
}

/// Rule severity, as SecLang defines it: the syslog levels, most urgent first.
#[derive(Debug, Clone, Copy, PartialEq, Eq, PartialOrd, Ord, Structural)]
pub enum Severity {
    Emergency,
    Alert,
    Critical,
    Error,
    Warning,
    Notice,
    Info,
    Debug,
}

/// The severity that a text names, by word or by level.
pub open spec fn severity_named(s: Seq<char>) -> Option<Severity> {
    let n = upper(s);
    if n == "EMERGENCY"@ || n == "0"@ {
        Some(Severity::Emergency)
    } else if n == "ALERT"@ || n == "1"@ {
        Some(Severity::Alert)
    } else if n == "CRITICAL"@ || n == "2"@ {
        Some(Severity::Critical)
    } else if n == "ERROR"@ || n == "3"@ {
        Some(Severity::Error)
    } else if n == "WARNING"@ || n == "4"@ {
        Some(Severity::Warning)
    } else if n == "NOTICE"@ || n == "5"@ {
        Some(Severity::Notice)
    } else if n == "INFO"@ || n == "6"@ {
        Some(Severity::Info)
    } else if n == "DEBUG"@ || n == "7"@ {
        Some(Severity::Debug)
    } else {
        None
    }
}

impl Severity {
    /// Parse a severity by name or by numeric level.
    pub fn parse(s: &str) -> (r: Option<Self>)
        ensures
            r == severity_named(s@),
    {
        let upper_name = to_upper(chars_of(s).as_slice());
        let n = upper_name.as_slice();
        if same(n, "EMERGENCY") || same(n, "0") {
            Some(Severity::Emergency)
        } else if same(n, "ALERT") || same(n, "1") {
            Some(Severity::Alert)
        } else if same(n, "CRITICAL") || same(n, "2") {
            Some(Severity::Critical)
        } else if same(n, "ERROR") || same(n, "3") {
            Some(Severity::Error)
        } else if same(n, "WARNING") || same(n, "4") {
            Some(Severity::Warning)
        } else if same(n, "NOTICE") || same(n, "5") {
            Some(Severity::Notice)
        } else if same(n, "INFO") || same(n, "6") {
            Some(Severity::Info)
        } else if same(n, "DEBUG") || same(n, "7") {
            Some(Severity::Debug)
        } else {
            None
        }
    }
}

} // verus!
