//! SecLang actions and transformations.
//!
//! The Core Rule Set uses a closed set of actions, transformations and `ctl:`
//! directives. Anything outside those sets fails parsing. An ignored disruptive
//! action turns a blocking rule into a logging rule without saying so, which is
//! the failure mode this crate exists to avoid.

use crate::rule::severity_named;
use crate::rule::Severity;
use crate::text::all_white;
use crate::text::before;
use crate::text::chars_of;
use crate::text::debug_quoted;
use crate::text::debug_text;
use crate::text::eq_ignore_case;
use crate::text::find_char;
use crate::text::from;
use crate::text::is_white;
use crate::text::joined;
use crate::text::joined3;
use crate::text::lemma_position_is;
use crate::text::lemma_trimmed_end_white;
use crate::text::lemma_trimmed_ends;
use crate::text::lemma_trimmed_start_white;
use crate::text::lower;
use crate::text::parse_unsigned;
use crate::text::position;
use crate::text::quoted_then;
use crate::text::same;
use crate::text::same_ignoring_case;
use crate::text::string_of;
use crate::text::then_quoted;
use crate::text::to_lower;
use crate::text::trim;
use crate::text::trimmed;
use crate::text::trimmed_end;
use crate::text::trimmed_start;
use crate::text::unsigned_number;
use crate::Phase;
use vstd::prelude::*;
use vstd::slice::slice_subrange;

verus! {

/// A single action from a rule's action list.
#[derive(Debug, Clone, PartialEq)]
pub enum Action {
    // Metadata
    Id(u32),
    Phase(Phase),
    Msg(String),
    LogData(String),
    Tag(String),
    Severity(Severity),
    Rev(String),
    Ver(String),
    Accuracy(u8),
    Maturity(u8),
    // Disruptive
    /// `block`, deferring to the configured default action.
    Block,
    Deny,
    Pass,
    Drop,
    Redirect(String),
    /// `status:403`, the status a disruptive action should use.
    Status(u16),
    // Flow
    Chain,
    SkipAfter(String),
    // Data
    /// `t:lowercase` and friends. Order within the action list is significant.
    Transform(Transformation),
    /// `capture`, exposing regex captures as `TX:0` through `TX:9`.
    Capture,
    /// `setvar:'tx.score=+%{tx.critical_anomaly_score}'`
    SetVar(SetVar),
    /// `initcol:ip=%{remote_addr}`
    InitCol { collection: String, value: String },
    /// `multiMatch`, re-evaluating after each transformation.
    MultiMatch,
    // Logging
    Log,
    NoLog,
    AuditLog,
    NoAuditLog,
    // Engine control
    Ctl(Ctl),
}

/// The view of an [`Action`].
#[verifier::ext_equal]
pub enum ActionView {
    Id(u32),
    Phase(Phase),
    Msg(Seq<char>),
    LogData(Seq<char>),
    Tag(Seq<char>),
    Severity(Severity),
    Rev(Seq<char>),
    Ver(Seq<char>),
    Accuracy(u8),
    Maturity(u8),
    Block,
    Deny,
    Pass,
    Drop,
    Redirect(Seq<char>),
    Status(u16),
    Chain,
    SkipAfter(Seq<char>),
    Transform(Transformation),
    Capture,
    SetVar(SetVarView),
    InitCol { collection: Seq<char>, value: Seq<char> },
    MultiMatch,
    Log,
    NoLog,
    AuditLog,
    NoAuditLog,
    Ctl(CtlView),
}

impl DeepView for Action {
    type V = ActionView;

    open spec fn deep_view(&self) -> ActionView {
        match self {
            Action::Id(n) => ActionView::Id(*n),
            Action::Phase(p) => ActionView::Phase(*p),
            Action::Msg(s) => ActionView::Msg(s@),
            Action::LogData(s) => ActionView::LogData(s@),
            Action::Tag(s) => ActionView::Tag(s@),
            Action::Severity(s) => ActionView::Severity(*s),
            Action::Rev(s) => ActionView::Rev(s@),
            Action::Ver(s) => ActionView::Ver(s@),
            Action::Accuracy(n) => ActionView::Accuracy(*n),
            Action::Maturity(n) => ActionView::Maturity(*n),
            Action::Block => ActionView::Block,
            Action::Deny => ActionView::Deny,
            Action::Pass => ActionView::Pass,
            Action::Drop => ActionView::Drop,
            Action::Redirect(s) => ActionView::Redirect(s@),
            Action::Status(n) => ActionView::Status(*n),
            Action::Chain => ActionView::Chain,
            Action::SkipAfter(s) => ActionView::SkipAfter(s@),
            Action::Transform(t) => ActionView::Transform(*t),
            Action::Capture => ActionView::Capture,
            Action::SetVar(v) => ActionView::SetVar(v.deep_view()),
            Action::InitCol { collection, value } => ActionView::InitCol {
                collection: collection@,
                value: value@,
            },
            Action::MultiMatch => ActionView::MultiMatch,
            Action::Log => ActionView::Log,
            Action::NoLog => ActionView::NoLog,
            Action::AuditLog => ActionView::AuditLog,
            Action::NoAuditLog => ActionView::NoAuditLog,
            Action::Ctl(c) => ActionView::Ctl(c.deep_view()),
        }
    }
}

/// A `setvar:` assignment.
#[derive(Debug, Clone, PartialEq)]
pub struct SetVar {
    /// The variable being written, such as `tx.sql_injection_score`. May
    /// contain `%{...}` macros, which are expanded at evaluation time.
    pub name: String,
    /// How the value is applied.
    pub op: SetVarOp,
    /// The value, unexpanded. `None` for a bare `setvar:tx.foo`, which sets 1.
    pub value: Option<String>,
}

/// The view of a [`SetVar`].
#[verifier::ext_equal]
pub struct SetVarView {
    pub name: Seq<char>,
    pub op: SetVarOp,
    pub value: Option<Seq<char>>,
}

impl DeepView for SetVar {
    type V = SetVarView;

    open spec fn deep_view(&self) -> SetVarView {
        SetVarView { name: self.name@, op: self.op, value: self.value.deep_view() }
    }
}

/// How a `setvar:` combines with the existing value.
#[derive(Debug, Clone, Copy, PartialEq, Eq, Structural)]
pub enum SetVarOp {
    /// `=`
    Assign,
    /// `=+`
    Add,
    /// `=-`
    Subtract,
    /// A leading `!`, which deletes the variable.
    Delete,
}

/// The `ctl:` directives the Core Rule Set uses.
#[derive(Debug, PartialEq)]
pub enum Ctl {
    /// `ctl:ruleEngine=On|Off|DetectionOnly`
    RuleEngine(RuleEngineMode),
    AuditEngine(String),
    ForceRequestBodyVariable(bool),
    RequestBodyProcessor(String),
    RuleRemoveById(String),
    RuleRemoveByTag(String),
    RuleRemoveTargetById { rule: String, target: String },
    RuleRemoveTargetByTag { tag: String, target: String },
}

/// The view of a [`Ctl`].
#[verifier::ext_equal]
pub enum CtlView {
    RuleEngine(RuleEngineMode),
    AuditEngine(Seq<char>),
    ForceRequestBodyVariable(bool),
    RequestBodyProcessor(Seq<char>),
    RuleRemoveById(Seq<char>),
    RuleRemoveByTag(Seq<char>),
    RuleRemoveTargetById { rule: Seq<char>, target: Seq<char> },
    RuleRemoveTargetByTag { tag: Seq<char>, target: Seq<char> },
}

impl DeepView for Ctl {
    type V = CtlView;

    open spec fn deep_view(&self) -> CtlView {
        match self {
            Ctl::RuleEngine(m) => CtlView::RuleEngine(*m),
            Ctl::AuditEngine(s) => CtlView::AuditEngine(s@),
            Ctl::ForceRequestBodyVariable(b) => CtlView::ForceRequestBodyVariable(*b),
            Ctl::RequestBodyProcessor(s) => CtlView::RequestBodyProcessor(s@),
            Ctl::RuleRemoveById(s) => CtlView::RuleRemoveById(s@),
            Ctl::RuleRemoveByTag(s) => CtlView::RuleRemoveByTag(s@),
            Ctl::RuleRemoveTargetById { rule, target } => CtlView::RuleRemoveTargetById {
                rule: rule@,
                target: target@,
            },
            Ctl::RuleRemoveTargetByTag { tag, target } => CtlView::RuleRemoveTargetByTag {
                tag: tag@,
                target: target@,
            },
        }
    }
}

impl Clone for Ctl {
    fn clone(&self) -> (r: Self)
        ensures
            r.deep_view() == self.deep_view(),
    {
        match self {
            Ctl::RuleEngine(m) => Ctl::RuleEngine(*m),
            Ctl::AuditEngine(s) => Ctl::AuditEngine(s.clone()),
            Ctl::ForceRequestBodyVariable(b) => Ctl::ForceRequestBodyVariable(*b),
            Ctl::RequestBodyProcessor(s) => Ctl::RequestBodyProcessor(s.clone()),
            Ctl::RuleRemoveById(s) => Ctl::RuleRemoveById(s.clone()),
            Ctl::RuleRemoveByTag(s) => Ctl::RuleRemoveByTag(s.clone()),
            Ctl::RuleRemoveTargetById { rule, target } => Ctl::RuleRemoveTargetById {
                rule: rule.clone(),
                target: target.clone(),
            },
            Ctl::RuleRemoveTargetByTag { tag, target } => Ctl::RuleRemoveTargetByTag {
                tag: tag.clone(),
                target: target.clone(),
            },
        }
    }
}

/// What `ctl:ruleEngine` switches the engine to for the rest of the
/// transaction.
#[derive(Debug, Clone, Copy, PartialEq, Eq, Structural)]
pub enum RuleEngineMode {
    On,
    Off,
    DetectionOnly,
}

/// The transformations the Core Rule Set applies.
#[derive(Debug, Clone, Copy, PartialEq, Eq, Structural)]
pub enum Transformation {
    /// `t:none`, which changes nothing.
    Identity,
    Base64Decode,
    CmdLine,
    CompressWhitespace,
    CssDecode,
    EscapeSeqDecode,
    HexEncode,
    HtmlEntityDecode,
    JsDecode,
    Length,
    Lowercase,
    NormalizePath,
    NormalizePathWin,
    RemoveCommentsChar,
    RemoveNulls,
    RemoveWhitespace,
    ReplaceComments,
    Sha1,
    UrlDecodeUni,
    Utf8ToUnicode,
}

/// The transformation that a name selects, in any ASCII case.
pub open spec fn transformation_named(name: Seq<char>) -> Option<Transformation> {
    let n = lower(name);
    if n == "none"@ {
        Some(Transformation::Identity)
    } else if n == "base64decode"@ {
        Some(Transformation::Base64Decode)
    } else if n == "cmdline"@ {
        Some(Transformation::CmdLine)
    } else if n == "compresswhitespace"@ {
        Some(Transformation::CompressWhitespace)
    } else if n == "cssdecode"@ {
        Some(Transformation::CssDecode)
    } else if n == "escapeseqdecode"@ {
        Some(Transformation::EscapeSeqDecode)
    } else if n == "hexencode"@ {
        Some(Transformation::HexEncode)
    } else if n == "htmlentitydecode"@ {
        Some(Transformation::HtmlEntityDecode)
    } else if n == "jsdecode"@ {
        Some(Transformation::JsDecode)
    } else if n == "length"@ {
        Some(Transformation::Length)
    } else if n == "lowercase"@ {
        Some(Transformation::Lowercase)
    } else if n == "normalizepath"@ || n == "normalisepath"@ {
        Some(Transformation::NormalizePath)
    } else if n == "normalizepathwin"@ || n == "normalisepathwin"@ {
        Some(Transformation::NormalizePathWin)
    } else if n == "removecommentschar"@ {
        Some(Transformation::RemoveCommentsChar)
    } else if n == "removenulls"@ {
        Some(Transformation::RemoveNulls)
    } else if n == "removewhitespace"@ {
        Some(Transformation::RemoveWhitespace)
    } else if n == "replacecomments"@ {
        Some(Transformation::ReplaceComments)
    } else if n == "sha1"@ {
        Some(Transformation::Sha1)
    } else if n == "urldecodeuni"@ {
        Some(Transformation::UrlDecodeUni)
    } else if n == "utf8tounicode"@ {
        Some(Transformation::Utf8ToUnicode)
    } else {
        None
    }
}

impl Transformation {
    /// Parse a transformation name, case-insensitively.
    ///
    /// `normalisePath` is accepted as a spelling of `normalizePath`; the Core
    /// Rule Set uses both.
    pub fn parse(name: &str) -> (r: Option<Self>)
        ensures
            r == transformation_named(name@),
    {
        let lower_name = to_lower(chars_of(name).as_slice());
        let n = lower_name.as_slice();
        if same(n, "none") {
            Some(Transformation::Identity)
        } else if same(n, "base64decode") {
            Some(Transformation::Base64Decode)
        } else if same(n, "cmdline") {
            Some(Transformation::CmdLine)
        } else if same(n, "compresswhitespace") {
            Some(Transformation::CompressWhitespace)
        } else if same(n, "cssdecode") {
            Some(Transformation::CssDecode)
        } else if same(n, "escapeseqdecode") {
            Some(Transformation::EscapeSeqDecode)
        } else if same(n, "hexencode") {
            Some(Transformation::HexEncode)
        } else if same(n, "htmlentitydecode") {
            Some(Transformation::HtmlEntityDecode)
        } else if same(n, "jsdecode") {
            Some(Transformation::JsDecode)
        } else if same(n, "length") {
            Some(Transformation::Length)
        } else if same(n, "lowercase") {
            Some(Transformation::Lowercase)
        } else if same(n, "normalizepath") || same(n, "normalisepath") {
            Some(Transformation::NormalizePath)
        } else if same(n, "normalizepathwin") || same(n, "normalisepathwin") {
            Some(Transformation::NormalizePathWin)
        } else if same(n, "removecommentschar") {
            Some(Transformation::RemoveCommentsChar)
        } else if same(n, "removenulls") {
            Some(Transformation::RemoveNulls)
        } else if same(n, "removewhitespace") {
            Some(Transformation::RemoveWhitespace)
        } else if same(n, "replacecomments") {
            Some(Transformation::ReplaceComments)
        } else if same(n, "sha1") {
            Some(Transformation::Sha1)
        } else if same(n, "urldecodeuni") {
            Some(Transformation::UrlDecodeUni)
        } else if same(n, "utf8tounicode") {
            Some(Transformation::Utf8ToUnicode)
        } else {
            None
        }
    }
}

/// Why an action could not be parsed.
#[derive(Debug, Clone, PartialEq)]
pub enum ActionError {
    /// The action name is not one Parapet implements.
    Unsupported {
        /// The action name as written.
        name: String,
    },
    /// The action is known but its argument is missing or malformed.
    BadArgument {
        /// The action name.
        name: String,
        /// What was wrong.
        detail: String,
    },
}

/// The view of an [`ActionError`].
#[verifier::ext_equal]
pub enum ActionErrorView {
    Unsupported { name: Seq<char> },
    BadArgument { name: Seq<char>, detail: Seq<char> },
}

impl DeepView for ActionError {
    type V = ActionErrorView;

    open spec fn deep_view(&self) -> ActionErrorView {
        match self {
            ActionError::Unsupported { name } => ActionErrorView::Unsupported { name: name@ },
            ActionError::BadArgument { name, detail } => ActionErrorView::BadArgument {
                name: name@,
                detail: detail@,
            },
        }
    }
}

impl ActionErrorView {
    /// The message that reports the error.
    pub open spec fn text(self) -> Seq<char> {
        match self {
            ActionErrorView::Unsupported { name } => "unsupported action "@ + debug_text(name)
                + ": Parapet implements the actions the Core Rule Set uses, and refuses rather than silently dropping one"@,
            ActionErrorView::BadArgument { name, detail } => "action "@ + name + ": "@ + detail,
        }
    }
}

impl ActionError {
    /// The message that reports the error.
    pub fn to_string(&self) -> (r: String)
        ensures
            r@ == self.deep_view().text(),
    {
        match self {
            ActionError::Unsupported { name } => {
                let mut out = joined("unsupported action ", debug_quoted(name.as_str()).as_str());
                out.append(
                    ": Parapet implements the actions the Core Rule Set uses, and refuses rather than silently dropping one",
                );
                out
            },
            ActionError::BadArgument { name, detail } => {
                let mut out = joined3("action ", name.as_str(), ": ");
                out.append(detail.as_str());
                out
            },
        }
    }
}

/// Text without one layer of matching single or double quotes.
pub open spec fn unquoted(s: Seq<char>) -> Seq<char> {
    if s.len() >= 2 && s[0] == s.last() && (s[0] == '\'' || s[0] == '"') {
        s.subrange(1, s.len() - 1)
    } else {
        s
    }
}

/// The phase that a `phase:` argument names.
pub open spec fn phase_named(raw: Seq<char>) -> Option<Phase> {
    let n = lower(raw);
    if n == "1"@ || n == "request"@ {
        Some(Phase::RequestHeaders)
    } else if n == "2"@ {
        Some(Phase::RequestBody)
    } else if n == "3"@ || n == "response"@ {
        Some(Phase::ResponseHeaders)
    } else if n == "4"@ {
        Some(Phase::ResponseBody)
    } else if n == "5"@ || n == "logging"@ {
        Some(Phase::Logging)
    } else {
        None
    }
}

/// The assignment that a `setvar:` argument writes, or what is wrong with it.
pub open spec fn setvar_of(arg: Seq<char>) -> Result<SetVarView, Seq<char>> {
    let p = position(arg, '=');
    if arg.len() > 0 && arg[0] == '!' {
        Ok(SetVarView { name: arg.skip(1), op: SetVarOp::Delete, value: None })
    } else if p >= arg.len() {
        Ok(SetVarView { name: arg, op: SetVarOp::Assign, value: None })
    } else if p == 0 {
        Err("no variable name"@)
    } else {
        let value = arg.skip(p + 1);
        if value.len() > 0 && value[0] == '+' {
            Ok(SetVarView { name: arg.take(p), op: SetVarOp::Add, value: Some(value.skip(1)) })
        } else if value.len() > 0 && value[0] == '-' {
            Ok(
                SetVarView {
                    name: arg.take(p),
                    op: SetVarOp::Subtract,
                    value: Some(value.skip(1)),
                },
            )
        } else {
            Ok(SetVarView { name: arg.take(p), op: SetVarOp::Assign, value: Some(value) })
        }
    }
}

/// The directive that a `ctl:` argument writes, or what is wrong with it.
pub open spec fn ctl_of(arg: Seq<char>) -> Result<CtlView, Seq<char>> {
    let p = position(arg, '=');
    if p >= arg.len() {
        Err("expected name=value, found "@ + debug_text(arg))
    } else {
        ctl_named(arg.take(p), arg.skip(p + 1))
    }
}

/// The directive that a `ctl:` name and value write, or what is wrong with them.
pub open spec fn ctl_named(name: Seq<char>, value: Seq<char>) -> Result<CtlView, Seq<char>> {
    let q = position(value, ';');
    let no_target = name + " expects RULE;TARGET, found "@ + debug_text(value);
    if name == "ruleEngine"@ {
        let mode = lower(value);
        if mode == "on"@ {
            Ok(CtlView::RuleEngine(RuleEngineMode::On))
        } else if mode == "off"@ {
            Ok(CtlView::RuleEngine(RuleEngineMode::Off))
        } else if mode == "detectiononly"@ {
            Ok(CtlView::RuleEngine(RuleEngineMode::DetectionOnly))
        } else {
            Err("unknown ruleEngine value "@ + debug_text(mode))
        }
    } else if name == "auditEngine"@ {
        Ok(CtlView::AuditEngine(value))
    } else if name == "forceRequestBodyVariable"@ {
        Ok(CtlView::ForceRequestBodyVariable(same_ignoring_case(value, "on"@)))
    } else if name == "requestBodyProcessor"@ {
        Ok(CtlView::RequestBodyProcessor(value))
    } else if name == "ruleRemoveById"@ {
        Ok(CtlView::RuleRemoveById(value))
    } else if name == "ruleRemoveByTag"@ {
        Ok(CtlView::RuleRemoveByTag(value))
    } else if name == "ruleRemoveTargetById"@ {
        if q >= value.len() {
            Err(no_target)
        } else {
            Ok(CtlView::RuleRemoveTargetById { rule: value.take(q), target: value.skip(q + 1) })
        }
    } else if name == "ruleRemoveTargetByTag"@ {
        if q >= value.len() {
            Err(no_target)
        } else {
            Ok(CtlView::RuleRemoveTargetByTag { tag: value.take(q), target: value.skip(q + 1) })
        }
    } else {
        Err("unsupported ctl directive "@ + debug_text(name))
    }
}

/// The action that a name writes on its own.
pub open spec fn flag_action(name: Seq<char>) -> Option<ActionView> {
    if name == "block"@ {
        Some(ActionView::Block)
    } else if name == "deny"@ {
        Some(ActionView::Deny)
    } else if name == "pass"@ {
        Some(ActionView::Pass)
    } else if name == "drop"@ {
        Some(ActionView::Drop)
    } else if name == "chain"@ {
        Some(ActionView::Chain)
    } else if name == "capture"@ {
        Some(ActionView::Capture)
    } else if name == "multiMatch"@ {
        Some(ActionView::MultiMatch)
    } else if name == "log"@ {
        Some(ActionView::Log)
    } else if name == "nolog"@ {
        Some(ActionView::NoLog)
    } else if name == "auditlog"@ {
        Some(ActionView::AuditLog)
    } else if name == "noauditlog"@ {
        Some(ActionView::NoAuditLog)
    } else {
        None
    }
}

/// The actions that are written with an argument.
pub open spec fn takes_argument(name: Seq<char>) -> bool {
    ||| name == "id"@
    ||| name == "phase"@
    ||| name == "msg"@
    ||| name == "logdata"@
    ||| name == "tag"@
    ||| name == "severity"@
    ||| name == "rev"@
    ||| name == "ver"@
    ||| name == "accuracy"@
    ||| name == "maturity"@
    ||| name == "redirect"@
    ||| name == "status"@
    ||| name == "skipAfter"@
    ||| name == "t"@
    ||| name == "setvar"@
    ||| name == "initcol"@
    ||| name == "ctl"@
}

pub open spec fn bad_argument(name: Seq<char>, detail: Seq<char>) -> Result<
    ActionView,
    ActionErrorView,
> {
    Err(ActionErrorView::BadArgument { name, detail })
}

/// The number that `raw` writes, where it is at most `max`.
pub open spec fn bounded_number(raw: Seq<char>, max: nat) -> Option<nat> {
    match unsigned_number(raw) {
        Some(n) => if n <= max {
            Some(n)
        } else {
            None
        },
        None => None,
    }
}

/// The action that a name with its argument writes.
pub open spec fn argument_action(name: Seq<char>, raw: Seq<char>) -> Result<
    ActionView,
    ActionErrorView,
> {
    if name == "id"@ {
        match bounded_number(raw, u32::MAX as nat) {
            Some(n) => Ok(ActionView::Id(n as u32)),
            None => bad_argument(name, debug_text(raw) + " is not a rule id"@),
        }
    } else if name == "phase"@ {
        match phase_named(raw) {
            Some(p) => Ok(ActionView::Phase(p)),
            None => bad_argument(name, "unknown phase "@ + debug_text(raw)),
        }
    } else if name == "msg"@ {
        Ok(ActionView::Msg(raw))
    } else if name == "logdata"@ {
        Ok(ActionView::LogData(raw))
    } else if name == "tag"@ {
        Ok(ActionView::Tag(raw))
    } else if name == "severity"@ {
        match severity_named(raw) {
            Some(s) => Ok(ActionView::Severity(s)),
            None => bad_argument(name, "unknown severity "@ + debug_text(raw)),
        }
    } else if name == "rev"@ {
        Ok(ActionView::Rev(raw))
    } else if name == "ver"@ {
        Ok(ActionView::Ver(raw))
    } else if name == "accuracy"@ {
        match bounded_number(raw, u8::MAX as nat) {
            Some(n) => Ok(ActionView::Accuracy(n as u8)),
            None => bad_argument(name, debug_text(raw) + " is not a value between 0 and 255"@),
        }
    } else if name == "maturity"@ {
        match bounded_number(raw, u8::MAX as nat) {
            Some(n) => Ok(ActionView::Maturity(n as u8)),
            None => bad_argument(name, debug_text(raw) + " is not a value between 0 and 255"@),
        }
    } else if name == "redirect"@ {
        Ok(ActionView::Redirect(raw))
    } else if name == "status"@ {
        match bounded_number(raw, u16::MAX as nat) {
            Some(n) => Ok(ActionView::Status(n as u16)),
            None => bad_argument(name, debug_text(raw) + " is not an HTTP status"@),
        }
    } else if name == "skipAfter"@ {
        Ok(ActionView::SkipAfter(raw))
    } else if name == "t"@ {
        match transformation_named(raw) {
            Some(t) => Ok(ActionView::Transform(t)),
            None => bad_argument(name, "unknown transformation "@ + debug_text(raw)),
        }
    } else if name == "setvar"@ {
        match setvar_of(raw) {
            Ok(v) => Ok(ActionView::SetVar(v)),
            Err(detail) => bad_argument(name, detail),
        }
    } else if name == "initcol"@ {
        let p = position(raw, '=');
        if p >= raw.len() {
            bad_argument(name, "expected collection=value"@)
        } else {
            Ok(ActionView::InitCol { collection: raw.take(p), value: raw.skip(p + 1) })
        }
    } else {
        match ctl_of(raw) {
            Ok(c) => Ok(ActionView::Ctl(c)),
            Err(detail) => bad_argument(name, detail),
        }
    }
}

/// The name in front of the first colon of a text.
pub open spec fn action_name(t: Seq<char>) -> Seq<char> {
    let p = position(t, ':');
    if p < t.len() {
        trimmed(t.take(p))
    } else {
        t
    }
}

/// The argument behind the first colon of a text.
pub open spec fn action_argument(t: Seq<char>) -> Option<Seq<char>> {
    let p = position(t, ':');
    if p < t.len() {
        Some(unquoted(trimmed(t.skip(p + 1))))
    } else {
        None
    }
}

/// What one entry of an action list means.
pub open spec fn action_of(text: Seq<char>) -> Result<ActionView, ActionErrorView> {
    let t = trimmed(text);
    let name = action_name(t);
    match flag_action(name) {
        Some(a) => Ok(a),
        None => if !takes_argument(name) {
            Err(ActionErrorView::Unsupported { name })
        } else {
            match action_argument(t) {
                Some(raw) => argument_action(name, raw),
                None => bad_argument(name, "requires an argument"@),
            }
        },
    }
}

fn bad(name: &[char], detail: String) -> (r: ActionError)
    ensures
        r.deep_view() == (ActionErrorView::BadArgument { name: name@, detail: detail@ }),
{
    ActionError::BadArgument { name: string_of(name), detail }
}

fn parse_flag(name: &[char]) -> (r: Option<Action>)
    ensures
        (match r {
            Some(a) => flag_action(name@) == Some(a.deep_view()),
            None => flag_action(name@) is None,
        }),
{
    if same(name, "block") {
        Some(Action::Block)
    } else if same(name, "deny") {
        Some(Action::Deny)
    } else if same(name, "pass") {
        Some(Action::Pass)
    } else if same(name, "drop") {
        Some(Action::Drop)
    } else if same(name, "chain") {
        Some(Action::Chain)
    } else if same(name, "capture") {
        Some(Action::Capture)
    } else if same(name, "multiMatch") {
        Some(Action::MultiMatch)
    } else if same(name, "log") {
        Some(Action::Log)
    } else if same(name, "nolog") {
        Some(Action::NoLog)
    } else if same(name, "auditlog") {
        Some(Action::AuditLog)
    } else if same(name, "noauditlog") {
        Some(Action::NoAuditLog)
    } else {
        None
    }
}

fn parse_bounded(raw: &[char], max: u64) -> (r: Option<u64>)
    ensures
        (match r {
            Some(v) => bounded_number(raw@, max as nat) == Some(v as nat) && v <= max,
            None => bounded_number(raw@, max as nat) is None,
        }),
{
    parse_unsigned(raw, max)
}

fn parse_small(raw: &[char], name: &[char]) -> (r: Result<u8, ActionError>)
    ensures
        (match r {
            Ok(n) => bounded_number(raw@, u8::MAX as nat) == Some(n as nat),
            Err(e) => bounded_number(raw@, u8::MAX as nat) is None && e.deep_view() == (
            ActionErrorView::BadArgument {
                name: name@,
                detail: debug_text(raw@) + " is not a value between 0 and 255"@,
            }),
        }),
{
    match parse_bounded(raw, 0xff) {
        Some(n) => Ok(n as u8),
        None => Err(
            bad(
                name,
                quoted_then(string_of(raw).as_str(), " is not a value between 0 and 255"),
            ),
        ),
    }
}

fn parse_phase(raw: &[char]) -> (r: Option<Phase>)
    ensures
        r == phase_named(raw@),
{
    let lowered = to_lower(raw);
    let n = lowered.as_slice();
    if same(n, "1") || same(n, "request") {
        Some(Phase::RequestHeaders)
    } else if same(n, "2") {
        Some(Phase::RequestBody)
    } else if same(n, "3") || same(n, "response") {
        Some(Phase::ResponseHeaders)
    } else if same(n, "4") {
        Some(Phase::ResponseBody)
    } else if same(n, "5") || same(n, "logging") {
        Some(Phase::Logging)
    } else {
        None
    }
}

/// Strip one layer of matching single or double quotes.
fn unquote(s: &[char]) -> (r: &[char])
    ensures
        r@ == unquoted(s@),
{
    if s.len() >= 2 {
        let first = s[0];
        let last = s[s.len() - 1];
        if (first == '\'' && last == '\'') || (first == '"' && last == '"') {
            return slice_subrange(s, 1, s.len() - 1);
        }
    }
    s
}

fn parse_setvar(arg: &[char]) -> (r: Result<SetVar, String>)
    ensures
        (match r {
            Ok(v) => setvar_of(arg@) == Ok::<SetVarView, Seq<char>>(v.deep_view()),
            Err(e) => setvar_of(arg@) == Err::<SetVarView, Seq<char>>(e@),
        }),
{
    if arg.len() > 0 && arg[0] == '!' {
        return Ok(SetVar { name: string_of(from(arg, 1)), op: SetVarOp::Delete, value: None });
    }
    let p = find_char(arg, '=');
    if p >= arg.len() {
        // `setvar:tx.foo` sets the variable to 1.
        return Ok(SetVar { name: string_of(arg), op: SetVarOp::Assign, value: None });
    }
    if p == 0 {
        return Err("no variable name".to_string());
    }
    let name = string_of(before(arg, p));
    let value = from(arg, p + 1);
    if value.len() > 0 && value[0] == '+' {
        Ok(SetVar { name, op: SetVarOp::Add, value: Some(string_of(from(value, 1))) })
    } else if value.len() > 0 && value[0] == '-' {
        Ok(SetVar { name, op: SetVarOp::Subtract, value: Some(string_of(from(value, 1))) })
    } else {
        Ok(SetVar { name, op: SetVarOp::Assign, value: Some(string_of(value)) })
    }
}

fn parse_ctl(arg: &[char]) -> (r: Result<Ctl, String>)
    ensures
        (match r {
            Ok(c) => ctl_of(arg@) == Ok::<CtlView, Seq<char>>(c.deep_view()),
            Err(e) => ctl_of(arg@) == Err::<CtlView, Seq<char>>(e@),
        }),
{
    let p = find_char(arg, '=');
    if p >= arg.len() {
        return Err(then_quoted("expected name=value, found ", string_of(arg).as_str()));
    }
    let name = before(arg, p);
    let value = from(arg, p + 1);
    if same(name, "ruleEngine") {
        let mode = to_lower(value);
        if same(mode.as_slice(), "on") {
            Ok(Ctl::RuleEngine(RuleEngineMode::On))
        } else if same(mode.as_slice(), "off") {
            Ok(Ctl::RuleEngine(RuleEngineMode::Off))
        } else if same(mode.as_slice(), "detectiononly") {
            Ok(Ctl::RuleEngine(RuleEngineMode::DetectionOnly))
        } else {
            Err(then_quoted("unknown ruleEngine value ", string_of(mode.as_slice()).as_str()))
        }
    } else if same(name, "auditEngine") {
        Ok(Ctl::AuditEngine(string_of(value)))
    } else if same(name, "forceRequestBodyVariable") {
        Ok(Ctl::ForceRequestBodyVariable(eq_ignore_case(value, chars_of("on").as_slice())))
    } else if same(name, "requestBodyProcessor") {
        Ok(Ctl::RequestBodyProcessor(string_of(value)))
    } else if same(name, "ruleRemoveById") {
        Ok(Ctl::RuleRemoveById(string_of(value)))
    } else if same(name, "ruleRemoveByTag") {
        Ok(Ctl::RuleRemoveByTag(string_of(value)))
    } else if same(name, "ruleRemoveTargetById") {
        let (rule, target) = split_target(name, value)?;
        Ok(Ctl::RuleRemoveTargetById { rule, target })
    } else if same(name, "ruleRemoveTargetByTag") {
        let (tag, target) = split_target(name, value)?;
        Ok(Ctl::RuleRemoveTargetByTag { tag, target })
    } else {
        Err(then_quoted("unsupported ctl directive ", string_of(name).as_str()))
    }
}

/// Target-scoped forms are `ruleRemoveTargetById=RULE;TARGET`.
fn split_target(name: &[char], value: &[char]) -> (r: Result<(String, String), String>)
    ensures
        ({
            let q = position(value@, ';');
            match r {
                Ok((a, b)) => q < value@.len() && a@ == value@.take(q) && b@ == value@.skip(q + 1),
                Err(e) => q >= value@.len() && e@ == name@ + " expects RULE;TARGET, found "@
                    + debug_text(value@),
            }
        }),
{
    let q = find_char(value, ';');
    if q >= value.len() {
        Err(
            joined3(
                string_of(name).as_str(),
                " expects RULE;TARGET, found ",
                debug_quoted(string_of(value).as_str()).as_str(),
            ),
        )
    } else {
        Ok((string_of(before(value, q)), string_of(from(value, q + 1))))
    }
}

fn parse_with_argument(name: &[char], raw: &[char]) -> (r: Result<Action, ActionError>)
    requires
        takes_argument(name@),
    ensures
        (match r {
            Ok(a) => argument_action(name@, raw@) == Ok::<ActionView, ActionErrorView>(
                a.deep_view(),
            ),
            Err(e) => argument_action(name@, raw@) == Err::<ActionView, ActionErrorView>(
                e.deep_view(),
            ),
        }),
{
    let arg = string_of(raw);
    if same(name, "id") {
        match parse_bounded(raw, 0xffff_ffff) {
            Some(n) => Ok(Action::Id(n as u32)),
            None => Err(bad(name, quoted_then(arg.as_str(), " is not a rule id"))),
        }
    } else if same(name, "phase") {
        match parse_phase(raw) {
            Some(p) => Ok(Action::Phase(p)),
            None => Err(bad(name, then_quoted("unknown phase ", arg.as_str()))),
        }
    } else if same(name, "msg") {
        Ok(Action::Msg(arg))
    } else if same(name, "logdata") {
        Ok(Action::LogData(arg))
    } else if same(name, "tag") {
        Ok(Action::Tag(arg))
    } else if same(name, "severity") {
        match Severity::parse(arg.as_str()) {
            Some(s) => Ok(Action::Severity(s)),
            None => Err(bad(name, then_quoted("unknown severity ", arg.as_str()))),
        }
    } else if same(name, "rev") {
        Ok(Action::Rev(arg))
    } else if same(name, "ver") {
        Ok(Action::Ver(arg))
    } else if same(name, "accuracy") {
        match parse_small(raw, name) {
            Ok(n) => Ok(Action::Accuracy(n)),
            Err(e) => Err(e),
        }
    } else if same(name, "maturity") {
        match parse_small(raw, name) {
            Ok(n) => Ok(Action::Maturity(n)),
            Err(e) => Err(e),
        }
    } else if same(name, "redirect") {
        Ok(Action::Redirect(arg))
    } else if same(name, "status") {
        match parse_bounded(raw, 0xffff) {
            Some(n) => Ok(Action::Status(n as u16)),
            None => Err(bad(name, quoted_then(arg.as_str(), " is not an HTTP status"))),
        }
    } else if same(name, "skipAfter") {
        Ok(Action::SkipAfter(arg))
    } else if same(name, "t") {
        match Transformation::parse(arg.as_str()) {
            Some(t) => Ok(Action::Transform(t)),
            None => Err(bad(name, then_quoted("unknown transformation ", arg.as_str()))),
        }
    } else if same(name, "setvar") {
        match parse_setvar(raw) {
            Ok(v) => Ok(Action::SetVar(v)),
            Err(detail) => Err(bad(name, detail)),
        }
    } else if same(name, "initcol") {
        let p = find_char(raw, '=');
        if p >= raw.len() {
            Err(bad(name, "expected collection=value".to_string()))
        } else {
            Ok(
                Action::InitCol {
                    collection: string_of(before(raw, p)),
                    value: string_of(from(raw, p + 1)),
                },
            )
        }
    } else {
        match parse_ctl(raw) {
            Ok(c) => Ok(Action::Ctl(c)),
            Err(detail) => Err(bad(name, detail)),
        }
    }
}

fn needs_argument(name: &[char]) -> (r: bool)
    ensures
        r == takes_argument(name@),
{
    same(name, "id") || same(name, "phase") || same(name, "msg") || same(name, "logdata") || same(name, "tag") || same(name, "severity") || same(name, "rev") || same(name, "ver") || same(name, "accuracy") || same(name, "maturity") || same(name, "redirect") || same(name, "status") || same(name, "skipAfter") || same(name, "t") || same(name, "setvar") || same(name, "initcol") || same(name, "ctl")
}

impl Action {
    /// Parse one action, such as `id:942100`, `t:lowercase` or `nolog`.
    pub fn parse(text: &str) -> (r: Result<Self, ActionError>)
        ensures
            (match r {
                Ok(a) => action_of(text@) == Ok::<ActionView, ActionErrorView>(a.deep_view()),
                Err(e) => action_of(text@) == Err::<ActionView, ActionErrorView>(e.deep_view()),
            }),
    {
        let chars = chars_of(text);
        let t = trim(chars.as_slice());
        let p = find_char(t, ':');
        let name = if p < t.len() {
            trim(before(t, p))
        } else {
            t
        };
        if let Some(a) = parse_flag(name) {
            return Ok(a);
        }
        if !needs_argument(name) {
            return Err(ActionError::Unsupported { name: string_of(name) });
        }
        if p < t.len() {
            parse_with_argument(name, unquote(trim(from(t, p + 1))))
        } else {
            Err(bad(name, "requires an argument".to_string()))
        }
    }
}

// ---------------------------------------------------------------------------
// Laws

/// An action that is not implemented is an error, never a skip; and nothing else
/// is reported as one.
pub proof fn unknown_actions_are_refused(text: Seq<char>)
    ensures
        ({
            let name = action_name(trimmed(text));
            action_of(text) == Err::<ActionView, ActionErrorView>(
                ActionErrorView::Unsupported { name },
            ) <==> flag_action(name) is None && !takes_argument(name)
        }),
{
}

/// `t:` is accepted exactly with a transformation that is implemented.
pub proof fn unknown_transformations_are_refused(raw: Seq<char>)
    ensures
        argument_action("t"@, raw) == match transformation_named(raw) {
            Some(t) => Ok::<ActionView, ActionErrorView>(ActionView::Transform(t)),
            None => bad_argument("t"@, "unknown transformation "@ + debug_text(raw)),
        },
{
    reveal_strlit("t");
    reveal_strlit("id");
    reveal_strlit("phase");
    reveal_strlit("msg");
    reveal_strlit("logdata");
    reveal_strlit("tag");
    reveal_strlit("severity");
    reveal_strlit("rev");
    reveal_strlit("ver");
    reveal_strlit("accuracy");
    reveal_strlit("maturity");
    reveal_strlit("redirect");
    reveal_strlit("status");
    reveal_strlit("skipAfter");
    assert("t"@.len() == 1);
}

/// A `setvar:` that is written out reads back: a name without `=` that does not
/// start with `!`, and a value that does not start with a sign, are assigned as
/// they are; behind a sign, the value is added or subtracted.
pub proof fn assignments_read_back(name: Seq<char>, value: Seq<char>)
    requires
        name.len() > 0,
        name[0] != '!',
        !name.contains('='),
    ensures
        (value.len() == 0 || (value[0] != '+' && value[0] != '-')) ==> setvar_of(
            name + seq!['='] + value,
        ) == Ok::<SetVarView, Seq<char>>(
            SetVarView { name, op: SetVarOp::Assign, value: Some(value) },
        ),
        setvar_of(name + seq!['=', '+'] + value) == Ok::<SetVarView, Seq<char>>(
            SetVarView { name, op: SetVarOp::Add, value: Some(value) },
        ),
        setvar_of(name + seq!['=', '-'] + value) == Ok::<SetVarView, Seq<char>>(
            SetVarView { name, op: SetVarOp::Subtract, value: Some(value) },
        ),
        setvar_of(seq!['!'] + name) == Ok::<SetVarView, Seq<char>>(
            SetVarView { name, op: SetVarOp::Delete, value: None },
        ),
        setvar_of(name) == Ok::<SetVarView, Seq<char>>(
            SetVarView { name, op: SetVarOp::Assign, value: None },
        ),
{
    let n = name.len() as int;
    let plain = name + seq!['='] + value;
    let plus = name + seq!['=', '+'] + value;
    let minus = name + seq!['=', '-'] + value;
    lemma_position_is(plain, '=', n);
    lemma_position_is(plus, '=', n);
    lemma_position_is(minus, '=', n);
    lemma_position_is(name, '=', n);
    assert(plain.take(n) =~= name && plain.skip(n + 1) =~= value);
    assert(plus.take(n) =~= name && plus.skip(n + 1).skip(1) =~= value);
    assert(minus.take(n) =~= name && minus.skip(n + 1).skip(1) =~= value);
    assert((seq!['!'] + name).skip(1) =~= name);
}

/// What an action carries that keeps its argument as text.
pub open spec fn text_action(name: Seq<char>, value: Seq<char>) -> Option<ActionView> {
    if name == "msg"@ {
        Some(ActionView::Msg(value))
    } else if name == "logdata"@ {
        Some(ActionView::LogData(value))
    } else if name == "tag"@ {
        Some(ActionView::Tag(value))
    } else if name == "rev"@ {
        Some(ActionView::Rev(value))
    } else if name == "ver"@ {
        Some(ActionView::Ver(value))
    } else if name == "redirect"@ {
        Some(ActionView::Redirect(value))
    } else if name == "skipAfter"@ {
        Some(ActionView::SkipAfter(value))
    } else {
        None
    }
}

proof fn lemma_text_action(name: Seq<char>, value: Seq<char>)
    requires
        text_action(name, value) is Some,
    ensures
        flag_action(name) is None,
        takes_argument(name),
        argument_action(name, value) == Ok::<ActionView, ActionErrorView>(
            text_action(name, value)->0,
        ),
        name.len() > 0,
        !is_white(name[0]),
        !is_white(name.last()),
        !name.contains(':'),
{
    reveal_strlit("block");
    reveal_strlit("deny");
    reveal_strlit("pass");
    reveal_strlit("drop");
    reveal_strlit("chain");
    reveal_strlit("capture");
    reveal_strlit("multiMatch");
    reveal_strlit("log");
    reveal_strlit("nolog");
    reveal_strlit("auditlog");
    reveal_strlit("noauditlog");
    reveal_strlit("id");
    reveal_strlit("phase");
    reveal_strlit("severity");
    reveal_strlit("accuracy");
    reveal_strlit("maturity");
    reveal_strlit("status");
    reveal_strlit("msg");
    reveal_strlit("logdata");
    reveal_strlit("tag");
    reveal_strlit("rev");
    reveal_strlit("ver");
    reveal_strlit("redirect");
    reveal_strlit("skipAfter");
    assert("block"@.len() == 5 && "deny"@.len() == 4 && "pass"@.len() == 4 && "drop"@.len() == 4);
    assert("chain"@.len() == 5 && "capture"@.len() == 7 && "multiMatch"@.len() == 10);
    assert("log"@.len() == 3 && "nolog"@.len() == 5 && "auditlog"@.len() == 8);
    assert("noauditlog"@.len() == 10 && "id"@.len() == 2 && "phase"@.len() == 5);
    assert("status"@.len() == 6 && "skipAfter"@.len() == 9 && "logdata"@.len() == 7);
    assert("msg"@.len() == 3 && "tag"@.len() == 3 && "rev"@.len() == 3 && "ver"@.len() == 3);
    assert("redirect"@.len() == 8);
    assert("log"@[0] == 'l' && "msg"@[0] == 'm' && "tag"@[0] == 't' && "rev"@[0] == 'r' && "ver"@[0]
        == 'v');
    assert("capture"@[0] == 'c' && "logdata"@[0] == 'l');
    assert("auditlog"@[0] == 'a' && "severity"@[0] == 's' && "accuracy"@[0] == 'a' && "maturity"@[0]
        == 'm' && "redirect"@[0] == 'r');
    assert("skipAfter"@[0] == 's');
    assert forall|i: int| 0 <= i < name.len() implies name[i] != ':' by {}
}

proof fn lemma_spelled_action(
    name: Seq<char>,
    value: Seq<char>,
    before: Seq<char>,
    around: Seq<char>,
    rest: Seq<char>,
)
    requires
        text_action(name, value) is Some,
        all_white(before),
        all_white(around),
        unquoted(trimmed(trimmed_end(rest))) == value,
    ensures
        action_of(before + name + around + ":"@ + rest) == Ok::<ActionView, ActionErrorView>(
            text_action(name, value)->0,
        ),
{
    reveal_strlit(":");
    lemma_text_action(name, value);
    let e = trimmed_end(rest);
    let front = name + around + seq![':'];
    let inner = front + rest;
    let whole = before + name + around + ":"@ + rest;
    assert(":"@ =~= seq![':']);
    assert(whole =~= before + inner);
    lemma_trimmed_start_white(before, inner);
    assert(inner[0] == name[0]);
    assert(trimmed_start(whole) == inner);
    lemma_trimmed_end_joined(front, rest);
    let t = front + e;
    assert(trimmed(whole) == t);
    let p = (name + around).len() as int;
    assert forall|j: int| 0 <= j < p implies t[j] != ':' by {
        if j < name.len() {
            assert(t[j] == name[j]);
            assert(name.contains(name[j]));
        } else {
            assert(t[j] == around[j - name.len()]);
            assert(is_white(around[j - name.len()]));
        }
    }
    assert(t[p] == ':');
    lemma_position_is(t, ':', p);
    assert(t.take(p) =~= name + around);
    assert(t.skip(p + 1) =~= e);
    assert((name + around)[0] == name[0]);
    lemma_trimmed_end_white(name, around);
    assert(trimmed(t.take(p)) == name);
}

proof fn lemma_trimmed_end_joined(front: Seq<char>, s: Seq<char>)
    requires
        front.len() > 0,
        !is_white(front.last()),
    ensures
        trimmed_end(front + s) == front + trimmed_end(s),
    decreases s.len(),
{
    if s.len() == 0 {
        assert(front + s =~= front);
        assert(front + trimmed_end(s) =~= front);
    } else {
        assert((front + s).last() == s.last());
        assert((front + s).drop_last() =~= front + s.drop_last());
        if is_white(s.last()) {
            lemma_trimmed_end_joined(front, s.drop_last());
        }
    }
}

/// One layer of quotes, and blanks around the name and the argument, change
/// nothing: each spelling of an action that keeps its argument as text carries
/// exactly that text.
pub proof fn quotes_and_blanks_change_nothing(
    name: Seq<char>,
    value: Seq<char>,
    quote: char,
    before: Seq<char>,
    around: Seq<char>,
    between: Seq<char>,
    behind: Seq<char>,
)
    requires
        text_action(name, value) is Some,
        trimmed(value) == value,
        unquoted(value) == value,
        quote == '\'' || quote == '"',
        all_white(before),
        all_white(around),
        all_white(between),
        all_white(behind),
    ensures
        ({
            let carried = Ok::<ActionView, ActionErrorView>(text_action(name, value)->0);
            &&& action_of(name + ":"@ + value) == carried
            &&& action_of(before + name + around + ":"@ + (between + value + behind)) == carried
            &&& action_of(
                before + name + around + ":"@ + (between + (seq![quote] + value + seq![quote])
                    + behind),
            ) == carried
        }),
{
    let none = Seq::<char>::empty();
    let quoted = seq![quote] + value + seq![quote];
    lemma_padded(none, value, none);
    assert(none + value + none =~= value);
    lemma_spelled_action(name, value, none, none, value);
    assert(none + name + none + ":"@ + value =~= name + ":"@ + value);
    lemma_padded(between, value, behind);
    lemma_spelled_action(name, value, before, around, between + value + behind);
    assert(quoted[0] == quote && quoted.last() == quote);
    assert(quoted.subrange(1, quoted.len() - 1) =~= value);
    assert(trimmed_start(quoted) == quoted);
    assert(trimmed(quoted) == quoted);
    lemma_padded(between, quoted, behind);
    lemma_spelled_action(name, value, before, around, between + quoted + behind);
}

proof fn lemma_padded(between: Seq<char>, value: Seq<char>, behind: Seq<char>)
    requires
        trimmed(value) == value,
        all_white(between),
        all_white(behind),
    ensures
        trimmed(trimmed_end(between + value + behind)) == value,
{
    lemma_trimmed_end_white(between + value, behind);
    let e = trimmed_end(between + value);
    if value.len() == 0 {
        let none = Seq::<char>::empty();
        assert(between + value =~= none + between);
        lemma_trimmed_end_white(none, between);
        assert(e == none);
        assert(trimmed(e) =~= value);
    } else {
        lemma_trimmed_ends(value);
        assert((between + value).last() == value.last());
        assert(e == between + value);
        lemma_trimmed_start_white(between, value);
    }
}

} // verus!
