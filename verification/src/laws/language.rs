//! What SecLang text means: the names of its collections, transformations, actions,
//! phases and operators, and how its lines and lists are taken apart.

use crate::action::action_of;
use crate::action::ctl_of;
use crate::action::phase_named;
use crate::action::setvar_of;
use crate::action::transformation_named;
use crate::action::ActionErrorView;
use crate::action::ActionView;
use crate::action::CtlView;
use crate::action::RuleEngineMode;
use crate::action::SetVarOp;
use crate::action::SetVarView;
use crate::action::Transformation;
use crate::laws::phases::lemma_untrimmed;
use crate::laws::targets::names_are_compared_by_their_letters;
use crate::laws::targets::reads_the_same;
use crate::operator::operator_of;
use crate::operator::NumericView;
use crate::operator::OperatorErrorView;
use crate::operator::OperatorView;
use crate::parse::action_list;
use crate::parse::actions_of;
use crate::parse::directive_line;
use crate::parse::entries_from;
use crate::parse::join_lines;
use crate::parse::line_of;
use crate::parse::marks;
use crate::parse::target_list;
use crate::parse::target_of;
use crate::parse::targets_of;
use crate::parse::token_then;
use crate::parse::tokens_from;
use crate::parse::tokens_of;
use crate::parse::LineView;
use crate::rule::collection_named;
use crate::rule::severity_named;
use crate::rule::Collection;
use crate::rule::DirectiveView;
use crate::rule::RuleView;
use crate::rule::SelectorView;
use crate::rule::Severity;
use crate::rule::TargetView;
use crate::text::is_white;
use crate::text::lemma_position;
use crate::text::lemma_position_is;
use crate::text::lower;
use crate::text::split;
use crate::text::trimmed_end;
use crate::text::trimmed_start;
use crate::text::unsigned_number;
use crate::text::upper;
use crate::text::upper_char;
use crate::text::white_position;
use crate::text::words;
use crate::Phase;
use vstd::prelude::*;

verus! {

// ---------------------------------------------------------------------------
// Names

proof fn lemma_upper_same(a: Seq<char>, b: Seq<char>)
    requires
        reads_the_same(a, b),
        upper(b) == b,
    ensures
        upper(a) == b,
{
    assert forall|i: int| 0 <= i < a.len() implies upper_char(a[i]) == upper_char(b[i]) by {
        assert(crate::laws::targets::is_same_letter(a[i], b[i]));
    }
    assert(upper(a) =~= upper(b));
}

proof fn lemma_lower_same(a: Seq<char>, b: Seq<char>)
    requires
        reads_the_same(a, b),
        lower(b) == b,
    ensures
        lower(a) == b,
{
    names_are_compared_by_their_letters(a, b);
}

/// The transformations by name.
pub open spec fn transformations() -> Seq<(Seq<char>, Transformation)> {
    seq![
        ("none"@, Transformation::Identity),
        ("base64decode"@, Transformation::Base64Decode),
        ("cmdline"@, Transformation::CmdLine),
        ("compresswhitespace"@, Transformation::CompressWhitespace),
        ("cssdecode"@, Transformation::CssDecode),
        ("escapeseqdecode"@, Transformation::EscapeSeqDecode),
        ("hexencode"@, Transformation::HexEncode),
        ("htmlentitydecode"@, Transformation::HtmlEntityDecode),
        ("jsdecode"@, Transformation::JsDecode),
        ("length"@, Transformation::Length),
        ("lowercase"@, Transformation::Lowercase),
        ("normalizepath"@, Transformation::NormalizePath),
        ("normalisepath"@, Transformation::NormalizePath),
        ("normalizepathwin"@, Transformation::NormalizePathWin),
        ("normalisepathwin"@, Transformation::NormalizePathWin),
        ("removecommentschar"@, Transformation::RemoveCommentsChar),
        ("removenulls"@, Transformation::RemoveNulls),
        ("removewhitespace"@, Transformation::RemoveWhitespace),
        ("replacecomments"@, Transformation::ReplaceComments),
        ("sha1"@, Transformation::Sha1),
        ("urldecodeuni"@, Transformation::UrlDecodeUni),
        ("utf8tounicode"@, Transformation::Utf8ToUnicode),
    ]
}

/// A transformation is selected by its name, in either case.
#[verifier::rlimit(60)]
pub proof fn transformations_are_named(name: Seq<char>, k: int)
    requires
        0 <= k < transformations().len(),
        reads_the_same(name, transformations()[k].0),
    ensures
        transformation_named(name) == Some(transformations()[k].1),
{
    reveal_strlit("none");
    reveal_strlit("base64decode");
    reveal_strlit("cmdline");
    reveal_strlit("compresswhitespace");
    reveal_strlit("cssdecode");
    reveal_strlit("escapeseqdecode");
    reveal_strlit("hexencode");
    reveal_strlit("htmlentitydecode");
    reveal_strlit("jsdecode");
    reveal_strlit("length");
    reveal_strlit("lowercase");
    reveal_strlit("normalizepath");
    reveal_strlit("normalisepath");
    reveal_strlit("normalizepathwin");
    reveal_strlit("normalisepathwin");
    reveal_strlit("removecommentschar");
    reveal_strlit("removenulls");
    reveal_strlit("removewhitespace");
    reveal_strlit("replacecomments");
    reveal_strlit("sha1");
    reveal_strlit("urldecodeuni");
    reveal_strlit("utf8tounicode");
    assert("none"@[0] == 'n');
    assert("sha1"@[0] == 's');
    assert("base64decode"@[0] == 'b');
    assert("urldecodeuni"@[0] == 'u');
    assert("compresswhitespace"@[0] == 'c');
    assert("removecommentschar"@[0] == 'r');
    assert("cssdecode"@[0] == 'c');
    assert("hexencode"@[0] == 'h');
    assert("lowercase"@[0] == 'l');
    assert("escapeseqdecode"@[0] == 'e');
    assert("replacecomments"@[0] == 'r');
    assert("htmlentitydecode"@[0] == 'h');
    assert("normalizepathwin"@[0] == 'n');
    assert("normalisepathwin"@[0] == 'n');
    assert("removewhitespace"@[0] == 'r');
    assert("normalizepath"@[7] == 'z');
    assert("normalisepath"@[7] == 's');
    assert("normalizepath"@[0] == 'n');
    assert("utf8tounicode"@[0] == 'u');
    assert("normalisepath"@[0] == 'n');
    assert("normalizepathwin"@[7] == 'z');
    assert("normalisepathwin"@[7] == 's');
    let n = transformations()[k].0;
    assert(lower(n) =~= n);
    lemma_lower_same(name, n);
}

/// The collections by name.
pub open spec fn collections() -> Seq<(Seq<char>, Collection)> {
    seq![
        ("ARGS"@, Collection::Args),
        ("ARGS_COMBINED_SIZE"@, Collection::ArgsCombinedSize),
        ("ARGS_GET"@, Collection::ArgsGet),
        ("ARGS_GET_NAMES"@, Collection::ArgsGetNames),
        ("ARGS_NAMES"@, Collection::ArgsNames),
        ("FILES"@, Collection::Files),
        ("FILES_COMBINED_SIZE"@, Collection::FilesCombinedSize),
        ("FILES_NAMES"@, Collection::FilesNames),
        ("MATCHED_VAR"@, Collection::MatchedVar),
        ("MATCHED_VARS"@, Collection::MatchedVars),
        ("MULTIPART_PART_HEADERS"@, Collection::MultipartPartHeaders),
        ("QUERY_STRING"@, Collection::QueryString),
        ("REQBODY_PROCESSOR"@, Collection::ReqbodyProcessor),
        ("REMOTE_ADDR"@, Collection::RemoteAddr),
        ("REQUEST_BASENAME"@, Collection::RequestBasename),
        ("REQUEST_BODY"@, Collection::RequestBody),
        ("REQUEST_COOKIES"@, Collection::RequestCookies),
        ("REQUEST_COOKIES_NAMES"@, Collection::RequestCookiesNames),
        ("REQUEST_FILENAME"@, Collection::RequestFilename),
        ("REQUEST_HEADERS"@, Collection::RequestHeaders),
        ("REQUEST_HEADERS_NAMES"@, Collection::RequestHeadersNames),
        ("REQUEST_LINE"@, Collection::RequestLine),
        ("REQUEST_METHOD"@, Collection::RequestMethod),
        ("REQUEST_PROTOCOL"@, Collection::RequestProtocol),
        ("REQUEST_URI"@, Collection::RequestUri),
        ("REQUEST_URI_RAW"@, Collection::RequestUriRaw),
        ("RESPONSE_BODY"@, Collection::ResponseBody),
        ("RESPONSE_HEADERS"@, Collection::ResponseHeaders),
        ("RESPONSE_STATUS"@, Collection::ResponseStatus),
        ("TX"@, Collection::Tx),
        ("UNIQUE_ID"@, Collection::UniqueId),
        ("XML"@, Collection::Xml),
    ]
}

/// A collection is addressed by its name, in either case, and reports its values
/// under that name.
#[verifier::rlimit(60)]
pub proof fn collections_are_named(name: Seq<char>, k: int)
    requires
        0 <= k < collections().len(),
        reads_the_same(name, collections()[k].0),
    ensures
        collection_named(name) == Some(collections()[k].1),
        crate::collections::canonical_name(collections()[k].1) == collections()[k].0,
{
    reveal_strlit("ARGS");
    reveal_strlit("ARGS_COMBINED_SIZE");
    reveal_strlit("ARGS_GET");
    reveal_strlit("ARGS_GET_NAMES");
    reveal_strlit("ARGS_NAMES");
    reveal_strlit("FILES");
    reveal_strlit("FILES_COMBINED_SIZE");
    reveal_strlit("FILES_NAMES");
    reveal_strlit("MATCHED_VAR");
    reveal_strlit("MATCHED_VARS");
    reveal_strlit("MULTIPART_PART_HEADERS");
    reveal_strlit("QUERY_STRING");
    reveal_strlit("REQBODY_PROCESSOR");
    reveal_strlit("REMOTE_ADDR");
    reveal_strlit("REQUEST_BASENAME");
    reveal_strlit("REQUEST_BODY");
    reveal_strlit("REQUEST_COOKIES");
    reveal_strlit("REQUEST_COOKIES_NAMES");
    reveal_strlit("REQUEST_FILENAME");
    reveal_strlit("REQUEST_HEADERS");
    reveal_strlit("REQUEST_HEADERS_NAMES");
    reveal_strlit("REQUEST_LINE");
    reveal_strlit("REQUEST_METHOD");
    reveal_strlit("REQUEST_PROTOCOL");
    reveal_strlit("REQUEST_URI");
    reveal_strlit("REQUEST_URI_RAW");
    reveal_strlit("RESPONSE_BODY");
    reveal_strlit("RESPONSE_HEADERS");
    reveal_strlit("RESPONSE_STATUS");
    reveal_strlit("TX");
    reveal_strlit("UNIQUE_ID");
    reveal_strlit("XML");
    assert("ARGS_GET_NAMES"@[0] == 'A');
    assert("REQUEST_METHOD"@[0] == 'R');
    assert("FILES_NAMES"@[0] == 'F');
    assert("MATCHED_VAR"@[0] == 'M');
    assert("REMOTE_ADDR"@[0] == 'R');
    assert("REQUEST_URI"@[0] == 'R');
    assert("MATCHED_VARS"@[0] == 'M');
    assert("QUERY_STRING"@[0] == 'Q');
    assert("REQUEST_BODY"@[0] == 'R');
    assert("REQUEST_LINE"@[0] == 'R');
    assert("REMOTE_ADDR"@[2] == 'M');
    assert("REQUEST_URI"@[2] == 'Q');
    assert("REQUEST_BASENAME"@[8] == 'B');
    assert("REQUEST_FILENAME"@[8] == 'F');
    assert("REQUEST_PROTOCOL"@[8] == 'P');
    assert("REQUEST_BASENAME"@[2] == 'Q');
    assert("RESPONSE_HEADERS"@[2] == 'S');
    assert("REQUEST_BODY"@[8] == 'B');
    assert("REQUEST_LINE"@[8] == 'L');
    assert("REQUEST_COOKIES"@[8] == 'C');
    assert("REQUEST_HEADERS"@[8] == 'H');
    assert("REQUEST_URI_RAW"@[8] == 'U');
    assert("REQUEST_COOKIES"@[2] == 'Q');
    assert("RESPONSE_STATUS"@[2] == 'S');
    assert("REQUEST_COOKIES_NAMES"@[8] == 'C');
    assert("REQUEST_HEADERS_NAMES"@[8] == 'H');
    assert("REQUEST_FILENAME"@[2] == 'Q');
    assert("REQUEST_HEADERS"@[2] == 'Q');
    assert("REQUEST_PROTOCOL"@[2] == 'Q');
    assert("REQUEST_URI_RAW"@[2] == 'Q');
    let n = collections()[k].0;
    assert(upper(n) =~= n);
    lemma_upper_same(name, n);
}

/// The severities, by word and by level.
pub open spec fn severities() -> Seq<(Seq<char>, Seq<char>, Severity)> {
    seq![
        ("EMERGENCY"@, "0"@, Severity::Emergency),
        ("ALERT"@, "1"@, Severity::Alert),
        ("CRITICAL"@, "2"@, Severity::Critical),
        ("ERROR"@, "3"@, Severity::Error),
        ("WARNING"@, "4"@, Severity::Warning),
        ("NOTICE"@, "5"@, Severity::Notice),
        ("INFO"@, "6"@, Severity::Info),
        ("DEBUG"@, "7"@, Severity::Debug),
    ]
}

/// A severity is named by its word, in either case, or by its level.
pub proof fn severities_are_named(name: Seq<char>, k: int)
    requires
        0 <= k < severities().len(),
        reads_the_same(name, severities()[k].0) || name == severities()[k].1,
    ensures
        severity_named(name) == Some(severities()[k].2),
{
    reveal_strlit("EMERGENCY");
    reveal_strlit("ALERT");
    reveal_strlit("CRITICAL");
    reveal_strlit("ERROR");
    reveal_strlit("WARNING");
    reveal_strlit("NOTICE");
    reveal_strlit("INFO");
    reveal_strlit("DEBUG");
    reveal_strlit("0");
    reveal_strlit("1");
    reveal_strlit("2");
    reveal_strlit("3");
    reveal_strlit("4");
    reveal_strlit("5");
    reveal_strlit("6");
    reveal_strlit("7");
    assert("ALERT"@[0] == 'A');
    assert("ERROR"@[0] == 'E');
    assert("DEBUG"@[0] == 'D');
    assert("0"@[0] == '0');
    assert("1"@[0] == '1');
    assert("2"@[0] == '2');
    assert("3"@[0] == '3');
    assert("4"@[0] == '4');
    assert("5"@[0] == '5');
    assert("6"@[0] == '6');
    assert("7"@[0] == '7');
    let word = severities()[k].0;
    let level = severities()[k].1;
    assert(upper(word) =~= word);
    assert(upper(level) =~= level);
    if reads_the_same(name, word) {
        lemma_upper_same(name, word);
    }
}

/// The phases by name.
pub open spec fn phases() -> Seq<(Seq<char>, Phase)> {
    seq![
        ("1"@, Phase::RequestHeaders),
        ("request"@, Phase::RequestHeaders),
        ("2"@, Phase::RequestBody),
        ("3"@, Phase::ResponseHeaders),
        ("response"@, Phase::ResponseHeaders),
        ("4"@, Phase::ResponseBody),
        ("5"@, Phase::Logging),
        ("logging"@, Phase::Logging),
    ]
}

/// A phase is named by its number, or by its word in either case.
pub proof fn phases_are_named(name: Seq<char>, k: int)
    requires
        0 <= k < phases().len(),
        reads_the_same(name, phases()[k].0),
    ensures
        phase_named(name) == Some(phases()[k].1),
{
    reveal_strlit("1");
    reveal_strlit("request");
    reveal_strlit("2");
    reveal_strlit("3");
    reveal_strlit("response");
    reveal_strlit("4");
    reveal_strlit("5");
    reveal_strlit("logging");
    assert("1"@[0] == '1');
    assert("2"@[0] == '2');
    assert("3"@[0] == '3');
    assert("4"@[0] == '4');
    assert("5"@[0] == '5');
    assert("request"@[0] == 'r');
    assert("logging"@[0] == 'l');
    let n = phases()[k].0;
    assert(lower(n) =~= n);
    lemma_lower_same(name, n);
}

// ---------------------------------------------------------------------------
// Actions

/// The actions that are written without an argument.
pub open spec fn flags() -> Seq<(Seq<char>, ActionView)> {
    seq![
        ("block"@, ActionView::Block),
        ("deny"@, ActionView::Deny),
        ("pass"@, ActionView::Pass),
        ("drop"@, ActionView::Drop),
        ("chain"@, ActionView::Chain),
        ("capture"@, ActionView::Capture),
        ("multiMatch"@, ActionView::MultiMatch),
        ("log"@, ActionView::Log),
        ("nolog"@, ActionView::NoLog),
        ("auditlog"@, ActionView::AuditLog),
        ("noauditlog"@, ActionView::NoAuditLog),
    ]
}

proof fn lemma_flag_names(k: int)
    requires
        0 <= k < flags().len(),
    ensures
        crate::action::flag_action(flags()[k].0) == Some(flags()[k].1),
        flags()[k].0.len() > 0,
        !is_white(flags()[k].0[0]),
        !is_white(flags()[k].0.last()),
        !flags()[k].0.contains(':'),
{
    reveal_strlit("block");
    reveal_strlit("deny");
    reveal_strlit("pass");
    reveal_strlit("drop");
    reveal_strlit("chain");
    reveal_strlit("capture");
    reveal_strlit("multiMatch");
    reveal_strlit("log");
    reveal_strlit("nolog");
    reveal_strlit("auditlog");
    reveal_strlit("noauditlog");
    assert("block"@.len() == 5);
    assert("deny"@.len() == 4);
    assert("pass"@.len() == 4);
    assert("drop"@.len() == 4);
    assert("chain"@.len() == 5);
    assert("capture"@.len() == 7);
    assert("multiMatch"@.len() == 10);
    assert("log"@.len() == 3);
    assert("nolog"@.len() == 5);
    assert("auditlog"@.len() == 8);
    assert("noauditlog"@.len() == 10);
    assert("block"@[0] == 'b');
    assert("chain"@[0] == 'c');
    assert("nolog"@[0] == 'n');
    assert("deny"@[0] == 'd');
    assert("pass"@[0] == 'p');
    assert("deny"@[1] == 'e');
    assert("drop"@[1] == 'r');
    assert("drop"@[0] == 'd');
    assert("multiMatch"@[0] == 'm');
    assert("noauditlog"@[0] == 'n');
    let n = flags()[k].0;
    assert(k == 0 ==> n == "block"@ && flags()[k].1 == ActionView::Block);
    assert(k == 1 ==> n == "deny"@ && flags()[k].1 == ActionView::Deny);
    assert(k == 2 ==> n == "pass"@ && flags()[k].1 == ActionView::Pass);
    assert(k == 3 ==> n == "drop"@ && flags()[k].1 == ActionView::Drop);
    assert(k == 4 ==> n == "chain"@ && flags()[k].1 == ActionView::Chain);
    assert(k == 5 ==> n == "capture"@ && flags()[k].1 == ActionView::Capture);
    assert(k == 6 ==> n == "multiMatch"@ && flags()[k].1 == ActionView::MultiMatch);
    assert(k == 7 ==> n == "log"@ && flags()[k].1 == ActionView::Log);
    assert(k == 8 ==> n == "nolog"@ && flags()[k].1 == ActionView::NoLog);
    assert(k == 9 ==> n == "auditlog"@ && flags()[k].1 == ActionView::AuditLog);
    assert(k == 10 ==> n == "noauditlog"@ && flags()[k].1 == ActionView::NoAuditLog);
    assert forall|i: int| 0 <= i < n.len() implies n[i] != ':' by {}
    if k == 0 {
        assert(crate::action::flag_action("block"@) == Some(ActionView::Block));
    }
    if k == 1 {
        assert(crate::action::flag_action("deny"@) == Some(ActionView::Deny));
    }
    if k == 2 {
        assert(crate::action::flag_action("pass"@) == Some(ActionView::Pass));
    }
    if k == 3 {
        assert(crate::action::flag_action("drop"@) == Some(ActionView::Drop));
    }
    if k == 4 {
        assert(crate::action::flag_action("chain"@) == Some(ActionView::Chain));
    }
    if k == 5 {
        assert(crate::action::flag_action("capture"@) == Some(ActionView::Capture));
    }
    if k == 6 {
        assert(crate::action::flag_action("multiMatch"@) == Some(ActionView::MultiMatch));
    }
    if k == 7 {
        assert(crate::action::flag_action("log"@) == Some(ActionView::Log));
    }
    if k == 8 {
        assert(crate::action::flag_action("nolog"@) == Some(ActionView::NoLog));
    }
    if k == 9 {
        assert(crate::action::flag_action("auditlog"@) == Some(ActionView::AuditLog));
    }
    if k == 10 {
        assert(crate::action::flag_action("noauditlog"@) == Some(ActionView::NoAuditLog));
    }
}

/// An action without an argument is written as its name.
pub proof fn flags_are_named(k: int)
    requires
        0 <= k < flags().len(),
    ensures
        action_of(flags()[k].0) == Ok::<ActionView, ActionErrorView>(flags()[k].1),
{
    let n = flags()[k].0;
    lemma_flag_names(k);
    lemma_untrimmed(n);
    lemma_position(n, ':');
}

/// The names of the actions that take an argument.
pub open spec fn argument_names() -> Seq<Seq<char>> {
    seq![
        "id"@,
        "phase"@,
        "msg"@,
        "logdata"@,
        "tag"@,
        "severity"@,
        "rev"@,
        "ver"@,
        "accuracy"@,
        "maturity"@,
        "redirect"@,
        "status"@,
        "skipAfter"@,
        "t"@,
        "setvar"@,
        "initcol"@,
        "ctl"@,
    ]
}

#[verifier::rlimit(60)]
proof fn lemma_argument_names(k: int)
    requires
        0 <= k < argument_names().len(),
    ensures
        crate::action::flag_action(argument_names()[k]) is None,
        crate::action::takes_argument(argument_names()[k]),
        argument_names()[k].len() > 0,
        !is_white(argument_names()[k][0]),
        !is_white(argument_names()[k].last()),
        !argument_names()[k].contains(':'),
        forall|j: int|
            0 <= j < argument_names().len() && j != k ==> #[trigger] argument_names()[j]
                != argument_names()[k],
{
    reveal_strlit("block");
    reveal_strlit("deny");
    reveal_strlit("pass");
    reveal_strlit("drop");
    reveal_strlit("chain");
    reveal_strlit("capture");
    reveal_strlit("multiMatch");
    reveal_strlit("log");
    reveal_strlit("nolog");
    reveal_strlit("auditlog");
    reveal_strlit("noauditlog");
    reveal_strlit("id");
    reveal_strlit("phase");
    reveal_strlit("msg");
    reveal_strlit("logdata");
    reveal_strlit("tag");
    reveal_strlit("severity");
    reveal_strlit("rev");
    reveal_strlit("ver");
    reveal_strlit("accuracy");
    reveal_strlit("maturity");
    reveal_strlit("redirect");
    reveal_strlit("status");
    reveal_strlit("skipAfter");
    reveal_strlit("t");
    reveal_strlit("setvar");
    reveal_strlit("initcol");
    reveal_strlit("ctl");
    assert("block"@[0] == 'b');
    assert("chain"@[0] == 'c');
    assert("nolog"@[0] == 'n');
    assert("phase"@[0] == 'p');
    assert("deny"@[0] == 'd');
    assert("pass"@[0] == 'p');
    assert("deny"@[1] == 'e');
    assert("drop"@[1] == 'r');
    assert("drop"@[0] == 'd');
    assert("capture"@[0] == 'c');
    assert("logdata"@[0] == 'l');
    assert("initcol"@[0] == 'i');
    assert("multiMatch"@[0] == 'm');
    assert("noauditlog"@[0] == 'n');
    assert("log"@[0] == 'l');
    assert("msg"@[0] == 'm');
    assert("tag"@[0] == 't');
    assert("rev"@[0] == 'r');
    assert("ver"@[0] == 'v');
    assert("ctl"@[0] == 'c');
    assert("auditlog"@[0] == 'a');
    assert("severity"@[0] == 's');
    assert("auditlog"@[1] == 'u');
    assert("accuracy"@[1] == 'c');
    assert("maturity"@[0] == 'm');
    assert("redirect"@[0] == 'r');
    assert("accuracy"@[0] == 'a');
    assert("status"@[1] == 't');
    assert("setvar"@[1] == 'e');
    let n = argument_names()[k];
    assert(k == 0 ==> n == "id"@);
    assert(k == 1 ==> n == "phase"@);
    assert(k == 2 ==> n == "msg"@);
    assert(k == 3 ==> n == "logdata"@);
    assert(k == 4 ==> n == "tag"@);
    assert(k == 5 ==> n == "severity"@);
    assert(k == 6 ==> n == "rev"@);
    assert(k == 7 ==> n == "ver"@);
    assert(k == 8 ==> n == "accuracy"@);
    assert(k == 9 ==> n == "maturity"@);
    assert(k == 10 ==> n == "redirect"@);
    assert(k == 11 ==> n == "status"@);
    assert(k == 12 ==> n == "skipAfter"@);
    assert(k == 13 ==> n == "t"@);
    assert(k == 14 ==> n == "setvar"@);
    assert(k == 15 ==> n == "initcol"@);
    assert(k == 16 ==> n == "ctl"@);
    assert forall|i: int| 0 <= i < n.len() implies n[i] != ':' by {}
    assert forall|j: int| 0 <= j < argument_names().len() && j != k implies #[trigger] argument_names()[j]
        != n by {
        let m = argument_names()[j];
        assert(j == 0 ==> m == "id"@);
        assert(j == 1 ==> m == "phase"@);
        assert(j == 2 ==> m == "msg"@);
        assert(j == 3 ==> m == "logdata"@);
        assert(j == 4 ==> m == "tag"@);
        assert(j == 5 ==> m == "severity"@);
        assert(j == 6 ==> m == "rev"@);
        assert(j == 7 ==> m == "ver"@);
        assert(j == 8 ==> m == "accuracy"@);
        assert(j == 9 ==> m == "maturity"@);
        assert(j == 10 ==> m == "redirect"@);
        assert(j == 11 ==> m == "status"@);
        assert(j == 12 ==> m == "skipAfter"@);
        assert(j == 13 ==> m == "t"@);
        assert(j == 14 ==> m == "setvar"@);
        assert(j == 15 ==> m == "initcol"@);
        assert(j == 16 ==> m == "ctl"@);
    }
}

proof fn lemma_argument(k: int, value: Seq<char>)
    requires
        0 <= k < argument_names().len(),
        value.len() > 0,
        !is_white(value[0]),
        !is_white(value.last()),
        value[0] != '\'',
        value[0] != '"',
    ensures
        action_of(argument_names()[k] + seq![':'] + value) == crate::action::argument_action(
            argument_names()[k],
            value,
        ),
{
    let n = argument_names()[k];
    let t = n + seq![':'] + value;
    lemma_argument_names(k);
    assert(t[0] == n[0] && t.last() == value.last());
    lemma_untrimmed(t);
    assert forall|j: int| 0 <= j < n.len() implies t[j] != ':' by {
        assert(n.contains(n[j]));
    }
    lemma_position_is(t, ':', n.len() as int);
    assert(t.take(n.len() as int) =~= n);
    assert(t.skip(n.len() as int + 1) =~= value);
    lemma_untrimmed(n);
    lemma_untrimmed(value);
}

/// What each action with an argument means, the argument written bare: `id` and
/// `status` a number, `phase`, `severity` and `t` a name, `setvar` and `ctl` what
/// they write; the rest keep their text.
pub proof fn arguments_are_read(k: int, value: Seq<char>)
    requires
        0 <= k < argument_names().len(),
        value.len() > 0,
        !is_white(value[0]),
        !is_white(value.last()),
        value[0] != '\'',
        value[0] != '"',
    ensures
        ({
            let action = action_of(argument_names()[k] + seq![':'] + value);
            &&& k == 0 ==> (unsigned_number(value) matches Some(n) ==> n <= u32::MAX ==> action
                == Ok::<ActionView, ActionErrorView>(ActionView::Id(n as u32)))
            &&& k == 1 ==> (phase_named(value) matches Some(p) ==> action == Ok::<
                ActionView,
                ActionErrorView,
            >(ActionView::Phase(p)))
            &&& k == 2 ==> action == Ok::<ActionView, ActionErrorView>(ActionView::Msg(value))
            &&& k == 3 ==> action == Ok::<ActionView, ActionErrorView>(ActionView::LogData(value))
            &&& k == 4 ==> action == Ok::<ActionView, ActionErrorView>(ActionView::Tag(value))
            &&& k == 5 ==> (severity_named(value) matches Some(s) ==> action == Ok::<
                ActionView,
                ActionErrorView,
            >(ActionView::Severity(s)))
            &&& k == 6 ==> action == Ok::<ActionView, ActionErrorView>(ActionView::Rev(value))
            &&& k == 7 ==> action == Ok::<ActionView, ActionErrorView>(ActionView::Ver(value))
            &&& k == 8 ==> (unsigned_number(value) matches Some(n) ==> n <= 255 ==> action == Ok::<
                ActionView,
                ActionErrorView,
            >(ActionView::Accuracy(n as u8)))
            &&& k == 9 ==> (unsigned_number(value) matches Some(n) ==> n <= 255 ==> action == Ok::<
                ActionView,
                ActionErrorView,
            >(ActionView::Maturity(n as u8)))
            &&& k == 10 ==> action == Ok::<ActionView, ActionErrorView>(
                ActionView::Redirect(value),
            )
            &&& k == 11 ==> (unsigned_number(value) matches Some(n) ==> n <= u16::MAX ==> action
                == Ok::<ActionView, ActionErrorView>(ActionView::Status(n as u16)))
            &&& k == 12 ==> action == Ok::<ActionView, ActionErrorView>(
                ActionView::SkipAfter(value),
            )
            &&& k == 13 ==> (transformation_named(value) matches Some(t) ==> action == Ok::<
                ActionView,
                ActionErrorView,
            >(ActionView::Transform(t)))
            &&& k == 14 ==> (setvar_of(value) matches Ok(v) ==> action == Ok::<
                ActionView,
                ActionErrorView,
            >(ActionView::SetVar(v)))
            &&& k == 16 ==> (ctl_of(value) matches Ok(c) ==> action == Ok::<
                ActionView,
                ActionErrorView,
            >(ActionView::Ctl(c)))
            &&& k == 0 || k == 11 ==> unsigned_number(value) is None ==> action is Err
            &&& k == 1 ==> phase_named(value) is None ==> action is Err
            &&& k == 5 ==> severity_named(value) is None ==> action is Err
            &&& k == 13 ==> transformation_named(value) is None ==> action is Err
            &&& k == 14 ==> setvar_of(value) is Err ==> action is Err
            &&& k == 16 ==> ctl_of(value) is Err ==> action is Err
        }),
{
    lemma_argument(k, value);
    lemma_argument_names(k);
    let names = argument_names();
    assert(names[0] == "id"@ && names[1] == "phase"@ && names[2] == "msg"@ && names[3]
        == "logdata"@ && names[4] == "tag"@ && names[5] == "severity"@ && names[6] == "rev"@
        && names[7] == "ver"@ && names[8] == "accuracy"@ && names[9] == "maturity"@ && names[10]
        == "redirect"@ && names[11] == "status"@ && names[12] == "skipAfter"@ && names[13] == "t"@
        && names[14] == "setvar"@ && names[15] == "initcol"@ && names[16] == "ctl"@);
}

/// `setvar:!name` deletes, and `setvar:name` without a value assigns the default.
pub proof fn bare_assignments_are_read(name: Seq<char>)
    requires
        !name.contains('='),
        name.len() > 0,
        name[0] != '!',
    ensures
        setvar_of(seq!['!'] + name) == Ok::<SetVarView, Seq<char>>(
            SetVarView { name, op: SetVarOp::Delete, value: None },
        ),
        setvar_of(name) == Ok::<SetVarView, Seq<char>>(
            SetVarView { name, op: SetVarOp::Assign, value: None },
        ),
{
    assert((seq!['!'] + name).skip(1) =~= name);
    lemma_position(name, '=');
}

/// What each `ctl` writes.
pub proof fn ctls_are_read(value: Seq<char>, rule: Seq<char>, target: Seq<char>)
    requires
        !rule.contains(';'),
    ensures
        reads_the_same(value, "on"@) ==> ctl_of("ruleEngine"@ + seq!['='] + value) == Ok::<
            CtlView,
            Seq<char>,
        >(CtlView::RuleEngine(RuleEngineMode::On)),
        reads_the_same(value, "off"@) ==> ctl_of("ruleEngine"@ + seq!['='] + value) == Ok::<
            CtlView,
            Seq<char>,
        >(CtlView::RuleEngine(RuleEngineMode::Off)),
        reads_the_same(value, "detectiononly"@) ==> ctl_of("ruleEngine"@ + seq!['='] + value)
            == Ok::<CtlView, Seq<char>>(CtlView::RuleEngine(RuleEngineMode::DetectionOnly)),
        ctl_of("ruleRemoveById"@ + seq!['='] + value) == Ok::<CtlView, Seq<char>>(
            CtlView::RuleRemoveById(value),
        ),
        ctl_of("ruleRemoveByTag"@ + seq!['='] + value) == Ok::<CtlView, Seq<char>>(
            CtlView::RuleRemoveByTag(value),
        ),
        ctl_of("ruleRemoveTargetById"@ + seq!['='] + (rule + seq![';'] + target)) == Ok::<
            CtlView,
            Seq<char>,
        >(CtlView::RuleRemoveTargetById { rule, target }),
        ctl_of("ruleRemoveTargetByTag"@ + seq!['='] + (rule + seq![';'] + target)) == Ok::<
            CtlView,
            Seq<char>,
        >(CtlView::RuleRemoveTargetByTag { tag: rule, target }),
{
    reveal_strlit("ruleEngine");
    reveal_strlit("auditEngine");
    reveal_strlit("forceRequestBodyVariable");
    reveal_strlit("requestBodyProcessor");
    reveal_strlit("ruleRemoveById");
    reveal_strlit("ruleRemoveByTag");
    reveal_strlit("ruleRemoveTargetById");
    reveal_strlit("ruleRemoveTargetByTag");
    reveal_strlit("on");
    reveal_strlit("off");
    reveal_strlit("detectiononly");
    assert("requestBodyProcessor"@[1] == 'e');
    assert("ruleRemoveTargetById"@[1] == 'u');
    assert(lower("on"@) =~= "on"@ && lower("off"@) =~= "off"@ && lower("detectiononly"@)
        =~= "detectiononly"@);
    if reads_the_same(value, "on"@) {
        lemma_lower_same(value, "on"@);
    }
    if reads_the_same(value, "off"@) {
        lemma_lower_same(value, "off"@);
    }
    if reads_the_same(value, "detectiononly"@) {
        lemma_lower_same(value, "detectiononly"@);
    }
    lemma_ctl_parts("ruleEngine"@, value);
    lemma_ctl_parts("ruleRemoveById"@, value);
    lemma_ctl_parts("ruleRemoveByTag"@, value);
    let both = rule + seq![';'] + target;
    lemma_ctl_parts("ruleRemoveTargetById"@, both);
    lemma_ctl_parts("ruleRemoveTargetByTag"@, both);
    assert forall|j: int| 0 <= j < rule.len() implies both[j] != ';' by {
        assert(rule.contains(rule[j]));
    }
    lemma_position_is(both, ';', rule.len() as int);
    assert(both.take(rule.len() as int) =~= rule);
    assert(both.skip(rule.len() as int + 1) =~= target);
}

proof fn lemma_ctl_parts(name: Seq<char>, value: Seq<char>)
    requires
        forall|j: int| 0 <= j < name.len() ==> name[j] != '=',
    ensures
        ctl_of(name + seq!['='] + value) == crate::action::ctl_named(name, value),
{
    let s = name + seq!['='] + value;
    lemma_position_is(s, '=', name.len() as int);
    assert(s.take(name.len() as int) =~= name);
    assert(s.skip(name.len() as int + 1) =~= value);
}

// ---------------------------------------------------------------------------
// Operators

/// The operators by name.
pub open spec fn operators() -> Seq<Seq<char>> {
    seq![
        "rx"@,
        "pm"@,
        "pmFromFile"@,
        "pmf"@,
        "streq"@,
        "contains"@,
        "endsWith"@,
        "within"@,
        "ipMatch"@,
        "lt"@,
        "gt"@,
        "eq"@,
        "ge"@,
        "detectSQLi"@,
        "detectXSS"@,
        "validateUtf8Encoding"@,
        "validateUrlEncoding"@,
        "validateByteRange"@,
        "unconditionalMatch"@,
    ]
}

#[verifier::rlimit(60)]
proof fn lemma_operator_names(k: int)
    requires
        0 <= k < operators().len(),
    ensures
        operators()[k].len() > 0,
        forall|i: int| 0 <= i < operators()[k].len() ==> !is_white(#[trigger] operators()[k][i]),
        forall|j: int|
            0 <= j < operators().len() && j != k ==> #[trigger] operators()[j] != operators()[k],
{
    reveal_strlit("rx");
    reveal_strlit("pm");
    reveal_strlit("pmFromFile");
    reveal_strlit("pmf");
    reveal_strlit("streq");
    reveal_strlit("contains");
    reveal_strlit("endsWith");
    reveal_strlit("within");
    reveal_strlit("ipMatch");
    reveal_strlit("lt");
    reveal_strlit("gt");
    reveal_strlit("eq");
    reveal_strlit("ge");
    reveal_strlit("detectSQLi");
    reveal_strlit("detectXSS");
    reveal_strlit("validateUtf8Encoding");
    reveal_strlit("validateUrlEncoding");
    reveal_strlit("validateByteRange");
    reveal_strlit("unconditionalMatch");
    assert("rx"@[0] == 'r');
    assert("pm"@[0] == 'p');
    assert("lt"@[0] == 'l');
    assert("gt"@[0] == 'g');
    assert("eq"@[0] == 'e');
    assert("ge"@[0] == 'g');
    assert("pmFromFile"@[0] == 'p');
    assert("detectSQLi"@[0] == 'd');
    assert("contains"@[0] == 'c');
    assert("endsWith"@[0] == 'e');
    assert("gt"@[1] == 't');
    assert("ge"@[1] == 'e');
    let n = operators()[k];
    assert(k == 0 ==> n == "rx"@);
    assert(k == 1 ==> n == "pm"@);
    assert(k == 2 ==> n == "pmFromFile"@);
    assert(k == 3 ==> n == "pmf"@);
    assert(k == 4 ==> n == "streq"@);
    assert(k == 5 ==> n == "contains"@);
    assert(k == 6 ==> n == "endsWith"@);
    assert(k == 7 ==> n == "within"@);
    assert(k == 8 ==> n == "ipMatch"@);
    assert(k == 9 ==> n == "lt"@);
    assert(k == 10 ==> n == "gt"@);
    assert(k == 11 ==> n == "eq"@);
    assert(k == 12 ==> n == "ge"@);
    assert(k == 13 ==> n == "detectSQLi"@);
    assert(k == 14 ==> n == "detectXSS"@);
    assert(k == 15 ==> n == "validateUtf8Encoding"@);
    assert(k == 16 ==> n == "validateUrlEncoding"@);
    assert(k == 17 ==> n == "validateByteRange"@);
    assert(k == 18 ==> n == "unconditionalMatch"@);
    assert forall|j: int| 0 <= j < operators().len() && j != k implies #[trigger] operators()[j]
        != n by {
        let m = operators()[j];
        assert(j == 0 ==> m == "rx"@);
        assert(j == 1 ==> m == "pm"@);
        assert(j == 2 ==> m == "pmFromFile"@);
        assert(j == 3 ==> m == "pmf"@);
        assert(j == 4 ==> m == "streq"@);
        assert(j == 5 ==> m == "contains"@);
        assert(j == 6 ==> m == "endsWith"@);
        assert(j == 7 ==> m == "within"@);
        assert(j == 8 ==> m == "ipMatch"@);
        assert(j == 9 ==> m == "lt"@);
        assert(j == 10 ==> m == "gt"@);
        assert(j == 11 ==> m == "eq"@);
        assert(j == 12 ==> m == "ge"@);
        assert(j == 13 ==> m == "detectSQLi"@);
        assert(j == 14 ==> m == "detectXSS"@);
        assert(j == 15 ==> m == "validateUtf8Encoding"@);
        assert(j == 16 ==> m == "validateUrlEncoding"@);
        assert(j == 17 ==> m == "validateByteRange"@);
        assert(j == 18 ==> m == "unconditionalMatch"@);
    }
    assert forall|i: int| 0 <= i < n.len() implies !is_white(#[trigger] n[i]) by {}
}

proof fn lemma_white_is(s: Seq<char>, p: int)
    requires
        0 <= p <= s.len(),
        forall|j: int| 0 <= j < p ==> !is_white(#[trigger] s[j]),
        p == s.len() || is_white(s[p]),
    ensures
        white_position(s) == p,
{
    crate::text::lemma_white_position(s);
    let q = white_position(s);
    if q < p {
        assert(!is_white(s[q]));
    }
}

/// What each operator means, written `@name` and its operand behind a blank.
pub proof fn operators_are_named(k: int, operand: Seq<char>)
    requires
        0 <= k < operators().len(),
        operand.len() > 0,
        !is_white(operand[0]),
    ensures
        ({
            let r = operator_of(seq!['@'] + operators()[k] + seq![' '] + operand);
            &&& k == 0 ==> r == Ok::<OperatorView, OperatorErrorView>(OperatorView::Rx(operand))
            &&& k == 1 ==> (words(operand).len() > 0 ==> r == Ok::<
                OperatorView,
                OperatorErrorView,
            >(OperatorView::Pm(words(operand))))
            &&& k == 2 || k == 3 ==> r == Ok::<OperatorView, OperatorErrorView>(
                OperatorView::PmFromFile(operand),
            )
            &&& k == 4 ==> r == Ok::<OperatorView, OperatorErrorView>(OperatorView::Streq(operand))
            &&& k == 5 ==> r == Ok::<OperatorView, OperatorErrorView>(
                OperatorView::Contains(operand),
            )
            &&& k == 6 ==> r == Ok::<OperatorView, OperatorErrorView>(
                OperatorView::EndsWith(operand),
            )
            &&& k == 7 ==> r == Ok::<OperatorView, OperatorErrorView>(
                OperatorView::Within(operand),
            )
            &&& k == 8 ==> r == Ok::<OperatorView, OperatorErrorView>(
                OperatorView::IpMatch(operand),
            )
            &&& crate::operator::numeric_of(operand) matches Ok(n) ==> {
                &&& k == 9 ==> r == Ok::<OperatorView, OperatorErrorView>(OperatorView::Lt(n))
                &&& k == 10 ==> r == Ok::<OperatorView, OperatorErrorView>(OperatorView::Gt(n))
                &&& k == 11 ==> r == Ok::<OperatorView, OperatorErrorView>(OperatorView::Eq(n))
                &&& k == 12 ==> r == Ok::<OperatorView, OperatorErrorView>(OperatorView::Ge(n))
            }
            &&& crate::operator::numeric_of(operand) is Err && 9 <= k <= 12 ==> r is Err
            &&& k == 13 ==> r == Ok::<OperatorView, OperatorErrorView>(OperatorView::DetectSqli)
            &&& k == 14 ==> r == Ok::<OperatorView, OperatorErrorView>(OperatorView::DetectXss)
            &&& k == 15 ==> r == Ok::<OperatorView, OperatorErrorView>(
                OperatorView::ValidateUtf8Encoding,
            )
            &&& k == 16 ==> r == Ok::<OperatorView, OperatorErrorView>(
                OperatorView::ValidateUrlEncoding,
            )
            &&& k == 17 ==> match crate::operator::byte_ranges_of(operand) {
                Ok(ranges) => r == Ok::<OperatorView, OperatorErrorView>(
                    OperatorView::ValidateByteRange(ranges),
                ),
                Err(_) => r is Err,
            }
            &&& k == 18 ==> r == Ok::<OperatorView, OperatorErrorView>(
                OperatorView::UnconditionalMatch,
            )
        }),
{
    let n = operators()[k];
    let s = seq!['@'] + n + seq![' '] + operand;
    lemma_operator_names(k);
    assert(s[0] == '@');
    assert(trimmed_start(s) == s);
    let rest = s.skip(1);
    assert(rest =~= n + seq![' '] + operand);
    assert forall|j: int| 0 <= j < n.len() implies !is_white(#[trigger] rest[j]) by {
        assert(rest[j] == n[j]);
    }
    assert(rest[n.len() as int] == ' ');
    lemma_white_is(rest, n.len() as int);
    assert(rest.take(n.len() as int) =~= n);
    let tail = rest.skip(n.len() as int);
    assert(tail[0] == ' ');
    assert(tail.drop_first() =~= operand);
    assert(trimmed_start(operand) == operand);
    assert(trimmed_start(tail) == operand);
    let all = operators();
    assert(all[0] == "rx"@ && all[1] == "pm"@ && all[2] == "pmFromFile"@ && all[3] == "pmf"@
        && all[4] == "streq"@ && all[5] == "contains"@ && all[6] == "endsWith"@
        && all[7] == "within"@ && all[8] == "ipMatch"@ && all[9] == "lt"@ && all[10] == "gt"@
        && all[11] == "eq"@ && all[12] == "ge"@ && all[13] == "detectSQLi"@
        && all[14] == "detectXSS"@ && all[15] == "validateUtf8Encoding"@
        && all[16] == "validateUrlEncoding"@ && all[17] == "validateByteRange"@
        && all[18] == "unconditionalMatch"@);
}

/// An argument that does not start with `@` is a pattern.
pub proof fn patterns_need_no_name(text: Seq<char>)
    requires
        text.len() > 0,
        !is_white(text[0]),
        text[0] != '@',
    ensures
        operator_of(text) == Ok::<OperatorView, OperatorErrorView>(OperatorView::Rx(text)),
{
    assert(trimmed_start(text) == text);
}

/// A numeric operand is a number, or one reference.
pub proof fn numeric_operands_are_read(n: i64, name: Seq<char>)
    requires
        name.len() > 0,
    ensures
        crate::operator::numeric_of(crate::text::decimal_int(n as int)) == Ok::<
            NumericView,
            Seq<char>,
        >(NumericView::Literal(n)),
        crate::operator::numeric_of(seq!['%', '{'] + name + seq!['}']) == Ok::<
            NumericView,
            Seq<char>,
        >(NumericView::Macro(name)),
{
    let d = crate::text::decimal_int(n as int);
    crate::text::lemma_decimal_is_plain(n as int);
    lemma_untrimmed(d);
    crate::text::decimal_reads_back(n as int);
    assert(d[0] != '%') by {
        if n >= 0 {
            crate::text::lemma_decimal_digits(n as nat);
            assert(crate::text::is_digit(crate::text::decimal(n as nat)[0]));
        }
    }
    let s = seq!['%', '{'] + name + seq!['}'];
    assert(s.last() == '}');
    lemma_untrimmed(s);
    assert(s.subrange(2, s.len() - 1) =~= name);
}

// ---------------------------------------------------------------------------
// Lines and tokens

/// A line that ends in a backslash goes on in the next one, without the backslash;
/// any other ends. White space at the end of a line says nothing.
pub proof fn backslashes_join_lines(
    line: Seq<char>,
    blanks: Seq<char>,
    rest: Seq<Seq<char>>,
    n: nat,
    start: nat,
    open: Seq<char>,
)
    requires
        forall|i: int| 0 <= i < blanks.len() ==> is_white(#[trigger] blanks[i]),
    ensures
        ({
            let first = if open.len() == 0 {
                n
            } else {
                start
            };
            &&& join_lines(seq![line.push('\\') + blanks] + rest, n, start, open) == join_lines(
                rest,
                n + 1,
                first,
                open + line,
            )
            &&& line.len() > 0 && line.last() != '\\' && !is_white(line.last()) ==> join_lines(
                seq![line + blanks] + rest,
                n,
                start,
                open,
            ) == seq![(first, open + line)] + join_lines(rest, n + 1, first, seq![])
        }),
{
    let joined = line.push('\\');
    lemma_trimmed_end_blanks(joined, blanks);
    assert(joined.drop_last() =~= line);
    let all = seq![joined + blanks] + rest;
    assert(all.drop_first() =~= rest);
    if line.len() > 0 && line.last() != '\\' && !is_white(line.last()) {
        lemma_trimmed_end_blanks(line, blanks);
        let closed = seq![line + blanks] + rest;
        assert(closed.drop_first() =~= rest);
    }
}

proof fn lemma_trimmed_end_blanks(s: Seq<char>, blanks: Seq<char>)
    requires
        s.len() > 0,
        !is_white(s.last()),
        forall|i: int| 0 <= i < blanks.len() ==> is_white(#[trigger] blanks[i]),
    ensures
        trimmed_end(s + blanks) == s,
    decreases blanks.len(),
{
    if blanks.len() == 0 {
        assert(s + blanks =~= s);
    } else {
        let less = blanks.drop_last();
        assert(is_white(blanks[blanks.len() - 1]));
        assert((s + blanks).last() == blanks.last());
        assert((s + blanks).drop_last() =~= s + less);
        assert forall|i: int| 0 <= i < less.len() implies is_white(#[trigger] less[i]) by {
            assert(is_white(blanks[i]));
        }
        lemma_trimmed_end_blanks(s, less);
    }
}

/// A text with each quote escaped.
pub open spec fn escaped(s: Seq<char>) -> Seq<char>
    decreases s.len(),
{
    if s.len() == 0 {
        seq![]
    } else if s[0] == '"' {
        seq!['\\', '"'] + escaped(s.drop_first())
    } else {
        seq![s[0]] + escaped(s.drop_first())
    }
}

proof fn lemma_quoted(s: Seq<char>, rest: Seq<char>, cur: Seq<char>)
    requires
        s.len() == 0 || s.last() != '\\',
    ensures
        tokens_from(escaped(s) + seq!['"'] + rest, true, cur) == tokens_from(rest, false, cur + s),
    decreases s.len(),
{
    let t = escaped(s) + seq!['"'] + rest;
    if s.len() == 0 {
        assert(t =~= seq!['"'] + rest);
        assert(t.skip(1) =~= rest);
        assert(cur + s =~= cur);
    } else {
        let less = s.drop_first();
        let tail = escaped(less) + seq!['"'] + rest;
        lemma_quoted(less, rest, cur.push(s[0]));
        assert(cur.push(s[0]) + less =~= cur + s);
        if s[0] == '"' {
            assert(t =~= seq!['\\', '"'] + tail);
            assert(t.skip(2) =~= tail);
            assert(t[0] == '\\' && t[1] == '"');
        } else {
            assert(t =~= seq![s[0]] + tail);
            assert(t.skip(1) =~= tail);
            if s[0] == '\\' {
                assert(less.len() > 0);
                assert(t[1] == tail[0]);
                if less[0] == '"' {
                    assert(tail[0] == '\\');
                } else {
                    assert(tail[0] == less[0]);
                }
            }
        }
    }
}

proof fn lemma_word(w: Seq<char>, rest: Seq<char>, cur: Seq<char>)
    requires
        forall|i: int| 0 <= i < w.len() ==> !is_white(#[trigger] w[i]) && w[i] != '"',
    ensures
        tokens_from(w + rest, false, cur) == tokens_from(rest, false, cur + w),
    decreases w.len(),
{
    if w.len() == 0 {
        assert(w + rest =~= rest);
        assert(cur + w =~= cur);
    } else {
        let s = w + rest;
        assert(s[0] == w[0]);
        assert(!is_white(w[0]));
        assert(s.skip(1) =~= w.drop_first() + rest);
        assert forall|i: int| 0 <= i < w.drop_first().len() implies !is_white(
            #[trigger] w.drop_first()[i],
        ) && w.drop_first()[i] != '"' by {
            assert(!is_white(w[i + 1]));
        }
        lemma_word(w.drop_first(), rest, cur.push(w[0]));
        assert(cur.push(w[0]) + w.drop_first() =~= cur + w);
    }
}

/// A line is its words in order: a word is what stands between white space, or
/// between quotes, where `\"` is a quote. A quote that is not closed is an error.
pub proof fn lines_are_words(w: Seq<char>, text: Seq<char>, blank: char, rest: Seq<char>)
    requires
        w.len() > 0,
        forall|i: int| 0 <= i < w.len() ==> !is_white(#[trigger] w[i]) && w[i] != '"',
        text.len() > 0,
        text.last() != '\\',
        is_white(blank),
        blank != '"',
    ensures
        tokens_of(Seq::<char>::empty()) == Some(Seq::<Seq<char>>::empty()),
        tokens_of(w) == Some(seq![w]),
        tokens_of(seq!['"'] + escaped(text) + seq!['"']) == Some(seq![text]),
        tokens_of(seq![blank] + rest) == tokens_of(rest),
        tokens_of(w + seq![blank] + rest) == token_then(seq![w], tokens_of(rest)),
        tokens_of(seq!['"'] + escaped(text) + seq!['"'] + seq![blank] + rest) == token_then(
            seq![text],
            tokens_of(rest),
        ),
        !text.contains('"') ==> tokens_of(seq!['"'] + text) is None,
{
    let none = Seq::<char>::empty();
    assert((seq![blank] + rest).skip(1) =~= rest);
    assert(none + w =~= w && none + text =~= text);
    lemma_word(w, none, none);
    assert(w + none =~= w);
    lemma_word(w, seq![blank] + rest, none);
    assert(w + seq![blank] + rest =~= w + (seq![blank] + rest));
    let q = seq!['"'] + escaped(text) + seq!['"'];
    assert(q.skip(1) =~= escaped(text) + seq!['"'] + none);
    lemma_quoted(text, none, none);
    let q2 = q + seq![blank] + rest;
    assert(q2.skip(1) =~= escaped(text) + seq!['"'] + (seq![blank] + rest));
    assert(q2[0] == '"');
    lemma_quoted(text, seq![blank] + rest, none);
    if !text.contains('"') {
        let open = seq!['"'] + text;
        assert(open.skip(1) =~= text);
        lemma_open_quote(text, none);
    }
}

proof fn lemma_open_quote(s: Seq<char>, cur: Seq<char>)
    requires
        !s.contains('"'),
    ensures
        tokens_from(s, true, cur) is None,
    decreases s.len(),
{
    if s.len() > 0 {
        assert(s.contains(s[0]));
        if s.len() > 1 {
            assert(s.contains(s[1]));
        }
        assert forall|i: int| 0 <= i < s.skip(1).len() implies s.skip(1)[i] != '"' by {
            assert(s.contains(s[i + 1]));
        }
        lemma_open_quote(s.skip(1), cur.push(s[0]));
    }
}

// ---------------------------------------------------------------------------
// Targets

proof fn lemma_marks(front: Seq<char>, rest: Seq<char>)
    requires
        forall|i: int| 0 <= i < front.len() ==> #[trigger] front[i] == '!' || front[i] == '&',
        rest.len() == 0 || rest[0] != '!' && rest[0] != '&',
    ensures
        marks(front + rest) == front.len(),
    decreases front.len(),
{
    let s = front + rest;
    if front.len() == 0 {
        if rest.len() > 0 {
            assert(s[0] == rest[0]);
        }
    } else {
        assert(s[0] == front[0]);
        assert(s.drop_first() =~= front.drop_first() + rest);
        assert forall|i: int| 0 <= i < front.drop_first().len() implies #[trigger] front.drop_first()[i]
            == '!' || front.drop_first()[i] == '&' by {
            assert(front[i + 1] == '!' || front[i + 1] == '&');
        }
        lemma_marks(front.drop_first(), rest);
    }
}

/// A target is a collection, behind `!` where it excludes and `&` where it counts.
/// What stands behind its first colon narrows it: a name, a pattern between slashes,
/// or for XML an expression.
pub proof fn targets_are_read(
    front: Seq<char>,
    name: Seq<char>,
    collection: Collection,
    selector: Seq<char>,
)
    requires
        forall|i: int| 0 <= i < front.len() ==> #[trigger] front[i] == '!' || front[i] == '&',
        collection_named(name) == Some(collection),
        name.len() > 0 && name[0] != '!' && name[0] != '&',
        !name.contains(':'),
        selector.len() > 0,
        !is_white(selector[0]) && !is_white(selector.last()),
        selector[0] != '\'' && selector.last() != '\'',
    ensures
        ({
            let exclusion = front.contains('!');
            let count = front.contains('&');
            let whole = target_of(front + name);
            let narrow = target_of(front + name + seq![':'] + selector);
            &&& whole == Ok::<TargetView, Seq<char>>(
                TargetView { collection, selector: None, exclusion, count },
            )
            &&& selector[0] != '/' && collection != Collection::Xml ==> narrow == Ok::<
                TargetView,
                Seq<char>,
            >(
                TargetView {
                    collection,
                    selector: Some(SelectorView::Name(selector)),
                    exclusion,
                    count,
                },
            )
            &&& selector.len() >= 2 && selector[0] == '/' && selector.last() == '/' && collection
                != Collection::Xml ==> narrow == Ok::<TargetView, Seq<char>>(
                TargetView {
                    collection,
                    selector: Some(
                        SelectorView::Regex(selector.subrange(1, selector.len() - 1)),
                    ),
                    exclusion,
                    count,
                },
            )
            &&& selector[0] == '/' && collection == Collection::Xml ==> narrow == Ok::<
                TargetView,
                Seq<char>,
            >(
                TargetView {
                    collection,
                    selector: Some(SelectorView::XPath(selector)),
                    exclusion,
                    count,
                },
            )
            &&& selector[0] != '/' && collection == Collection::Xml ==> narrow is Err
            &&& selector[0] == '/' && selector.last() != '/' && collection != Collection::Xml
                ==> narrow is Err
        }),
{
    let n = front.len() as int;
    lemma_marks(front, name);
    let a = front + name;
    assert(a.take(n) =~= front);
    assert(a.skip(n) =~= name);
    lemma_position(name, ':');
    let tail = name + seq![':'] + selector;
    let b = front + name + seq![':'] + selector;
    assert(b =~= front + tail);
    assert(tail[0] == name[0]);
    lemma_marks(front, tail);
    assert(b.take(n) =~= front);
    assert(b.skip(n) =~= tail);
    assert forall|j: int| 0 <= j < name.len() implies tail[j] != ':' by {
        assert(name.contains(name[j]));
    }
    lemma_position_is(tail, ':', name.len() as int);
    assert(tail.take(name.len() as int) =~= name);
    assert(tail.skip(name.len() as int + 1) =~= selector);
    lemma_untrimmed(selector);
    assert(crate::text::stripped_start(selector, '\'') == selector);
    assert(crate::text::stripped_end(selector, '\'') == selector);
}

/// The targets of a rule stand between bars.
pub proof fn bars_part_targets(one: Seq<char>, target: TargetView, rest: Seq<char>, more: Seq<TargetView>)
    requires
        one.len() > 0,
        !is_white(one[0]) && !is_white(one.last()),
        !one.contains('|'),
        target_of(one) == Ok::<TargetView, Seq<char>>(target),
        targets_of(rest) == Ok::<Seq<TargetView>, (Seq<char>, Seq<char>)>(more),
    ensures
        targets_of(one) == Ok::<Seq<TargetView>, (Seq<char>, Seq<char>)>(seq![target]),
        targets_of(one + seq!['|'] + rest) == Ok::<Seq<TargetView>, (Seq<char>, Seq<char>)>(
            seq![target] + more,
        ),
{
    lemma_untrimmed(one);
    crate::laws::requests::lemma_split_none(one, '|');
    reveal_with_fuel(target_list, 2);
    assert(seq![one].drop_first() =~= seq![]);
    assert(seq![target] + Seq::<TargetView>::empty() =~= seq![target]);
    let s = one + seq!['|'] + rest;
    assert forall|j: int| 0 <= j < one.len() implies s[j] != '|' by {
        assert(one.contains(one[j]));
    }
    lemma_position_is(s, '|', one.len() as int);
    assert(s.take(one.len() as int) =~= one);
    assert(s.skip(one.len() as int + 1) =~= rest);
    let parts = split(s, '|');
    assert(parts =~= seq![one] + split(rest, '|'));
    assert(parts.drop_first() =~= split(rest, '|'));
    assert(parts[0] == one);
    assert((seq![target] + more).len() > 0);
}

// ---------------------------------------------------------------------------
// Action lists

/// Whether a text holds no comma, quote or parenthesis.
pub open spec fn is_plain(s: Seq<char>) -> bool {
    forall|i: int|
        0 <= i < s.len() ==> #[trigger] s[i] != ',' && s[i] != '\'' && s[i] != '(' && s[i] != ')'
}

proof fn lemma_plain_entry(s: Seq<char>, rest: Seq<char>, depth: nat, cur: Seq<char>)
    requires
        is_plain(s),
    ensures
        entries_from(s + rest, false, depth, cur) == entries_from(rest, false, depth, cur + s),
    decreases s.len(),
{
    if s.len() == 0 {
        assert(s + rest =~= rest);
        assert(cur + s =~= cur);
    } else {
        let t = s + rest;
        assert(t[0] == s[0]);
        assert(t.drop_first() =~= s.drop_first() + rest);
        assert forall|i: int| 0 <= i < s.drop_first().len() implies #[trigger] s.drop_first()[i]
            != ',' && s.drop_first()[i] != '\'' && s.drop_first()[i] != '(' && s.drop_first()[i]
            != ')' by {
            assert(s[i + 1] != ',' && s[i + 1] != '\'' && s[i + 1] != '(' && s[i + 1] != ')');
        }
        lemma_plain_entry(s.drop_first(), rest, depth, cur.push(s[0]));
        assert(cur.push(s[0]) + s.drop_first() =~= cur + s);
    }
}

proof fn lemma_quoted_entry(s: Seq<char>, rest: Seq<char>, depth: nat, cur: Seq<char>)
    requires
        !s.contains('\''),
    ensures
        entries_from(s + rest, true, depth, cur) == entries_from(rest, true, depth, cur + s),
    decreases s.len(),
{
    if s.len() == 0 {
        assert(s + rest =~= rest);
        assert(cur + s =~= cur);
    } else {
        let t = s + rest;
        assert(t[0] == s[0] && s.contains(s[0]));
        assert(t.drop_first() =~= s.drop_first() + rest);
        assert forall|i: int| 0 <= i < s.drop_first().len() implies s.drop_first()[i] != '\'' by {
            assert(s.contains(s[i + 1]));
        }
        lemma_quoted_entry(s.drop_first(), rest, depth, cur.push(s[0]));
        assert(cur.push(s[0]) + s.drop_first() =~= cur + s);
    }
}

/// Commas part the actions of a list, but for those between single quotes, where a
/// parenthesis says nothing either.
pub proof fn commas_part_actions(
    before: Seq<char>,
    quoted: Seq<char>,
    one: ActionView,
    rest: Seq<char>,
    more: Seq<ActionView>,
)
    requires
        before.len() > 0,
        is_plain(before),
        !is_white(before[0]),
        !is_white(before.last()),
        !quoted.contains('\''),
        actions_of(rest) == Ok::<Seq<ActionView>, ActionErrorView>(more),
    ensures
        action_of(before) == Ok::<ActionView, ActionErrorView>(one) ==> actions_of(
            before + seq![','] + rest,
        ) == Ok::<Seq<ActionView>, ActionErrorView>(seq![one] + more),
        action_of(before + seq!['\''] + quoted + seq!['\'']) == Ok::<ActionView, ActionErrorView>(
            one,
        ) ==> actions_of(before + seq!['\''] + quoted + seq!['\''] + seq![','] + rest) == Ok::<
            Seq<ActionView>,
            ActionErrorView,
        >(seq![one] + more),
        action_of(before) == Ok::<ActionView, ActionErrorView>(one) ==> actions_of(before) == Ok::<
            Seq<ActionView>,
            ActionErrorView,
        >(seq![one]),
{
    let none = Seq::<char>::empty();
    lemma_untrimmed(before);
    lemma_plain_entry(before, seq![','] + rest, 0, none);
    assert(before + seq![','] + rest =~= before + (seq![','] + rest));
    assert((seq![','] + rest).drop_first() =~= rest);
    assert(none + before =~= before);
    let entries = entries_from(rest, false, 0, none);
    assert((seq![before] + entries).drop_first() =~= entries);
    let q = before + seq!['\''] + quoted + seq!['\''];
    let s = q + seq![','] + rest;
    let tail = quoted + (seq!['\''] + (seq![','] + rest));
    assert(s =~= before + (seq!['\''] + tail));
    lemma_plain_entry(before, seq!['\''] + tail, 0, none);
    assert((seq!['\''] + tail).drop_first() =~= tail);
    lemma_quoted_entry(quoted, seq!['\''] + (seq![','] + rest), 0, before.push('\''));
    assert((seq!['\''] + (seq![','] + rest)).drop_first() =~= seq![','] + rest);
    assert((before.push('\'') + quoted).push('\'') =~= q);
    assert(entries_from(s, false, 0, none) == entries_from(tail, true, 0, before.push('\'')));
    assert(entries_from(tail, true, 0, before.push('\'')) == entries_from(
        seq!['\''] + (seq![','] + rest),
        true,
        0,
        before.push('\'') + quoted,
    ));
    assert(entries_from(seq!['\''] + (seq![','] + rest), true, 0, before.push('\'') + quoted)
        == entries_from(seq![','] + rest, false, 0, q));
    assert(entries_from(seq![','] + rest, false, 0, q) == seq![q] + entries);
    assert((seq![q] + entries).drop_first() =~= entries);
    assert((seq![q] + entries)[0] == q);
    assert(q[0] == before[0] && q.last() == '\'');
    lemma_untrimmed(q);
    lemma_plain_entry(before, none, 0, none);
    assert(before + none =~= before);
    reveal_with_fuel(action_list, 2);
    assert(seq![before].drop_first() =~= seq![]);
    assert(seq![one] + Seq::<ActionView>::empty() =~= seq![one]);
}

// ---------------------------------------------------------------------------
// Directives

/// A `SecRule` is its targets, its operator, which a `!` in front negates, and its
/// actions.
pub proof fn rules_are_read(
    targets_text: Seq<char>,
    targets: Seq<TargetView>,
    operator_text: Seq<char>,
    operator: OperatorView,
    actions_text: Seq<char>,
    actions: Seq<ActionView>,
    line: usize,
)
    requires
        targets_of(targets_text) == Ok::<Seq<TargetView>, (Seq<char>, Seq<char>)>(targets),
        operator_of(operator_text) == Ok::<OperatorView, OperatorErrorView>(operator),
        operator_text.len() > 0 && operator_text[0] != '!',
        actions_of(actions_text) == Ok::<Seq<ActionView>, ActionErrorView>(actions),
    ensures
        directive_line(seq!["SecRule"@, targets_text, operator_text, actions_text], line)
            == LineView::Directive(
            DirectiveView::Rule(
                RuleView { targets, operator: Some(operator), negated: false, actions, line },
            ),
        ),
        directive_line(
            seq!["SecRule"@, targets_text, seq!['!'] + operator_text, actions_text],
            line,
        ) == LineView::Directive(
            DirectiveView::Rule(
                RuleView { targets, operator: Some(operator), negated: true, actions, line },
            ),
        ),
        directive_line(seq!["SecRule"@, targets_text, operator_text], line) == LineView::Directive(
            DirectiveView::Rule(
                RuleView {
                    targets,
                    operator: Some(operator),
                    negated: false,
                    actions: seq![],
                    line,
                },
            ),
        ),
{
    let negated = seq!['!'] + operator_text;
    assert(negated.skip(1) =~= operator_text);
    let plain = seq!["SecRule"@, targets_text, operator_text, actions_text];
    let not = seq!["SecRule"@, targets_text, negated, actions_text];
    let bare = seq!["SecRule"@, targets_text, operator_text];
    assert(plain[0] == "SecRule"@ && plain[1] == targets_text && plain[2] == operator_text
        && plain[3] == actions_text);
    assert(not[0] == "SecRule"@ && not[1] == targets_text && not[2] == negated && not[3]
        == actions_text);
    assert(bare[0] == "SecRule"@ && bare[1] == targets_text && bare[2] == operator_text);
}

/// A `SecAction` is its actions alone; a `SecDefaultAction` is of the phase that it
/// names first, or of the second; and a `SecMarker` is its name.
pub proof fn other_directives_are_read(
    actions_text: Seq<char>,
    actions: Seq<ActionView>,
    i: int,
    line: usize,
)
    requires
        actions_of(actions_text) == Ok::<Seq<ActionView>, ActionErrorView>(actions),
    ensures
        directive_line(seq!["SecAction"@, actions_text], line) == LineView::Directive(
            DirectiveView::Action(
                RuleView { targets: seq![], operator: None, negated: false, actions, line },
            ),
        ),
        directive_line(seq!["SecMarker"@, actions_text], line) == LineView::Directive(
            DirectiveView::Marker(actions_text),
        ),
        directive_line(seq!["SecDefaultAction"@, actions_text], line) matches LineView::Directive(
            DirectiveView::DefaultAction { phase, actions: a },
        ) && a == actions && (0 <= i < actions.len() && actions[i] is Phase && names_no_phase(
            actions.take(i),
        ) ==> phase == actions[i]->Phase_0) && (names_no_phase(actions) ==> phase
            == Phase::RequestBody),
{
    reveal_strlit("SecRule");
    reveal_strlit("SecAction");
    reveal_strlit("SecDefaultAction");
    reveal_strlit("SecMarker");
    reveal_strlit("SecComponentSignature");
    assert("SecAction"@[3] == 'A');
    assert("SecMarker"@[3] == 'M');
    let act = seq!["SecAction"@, actions_text];
    let mark = seq!["SecMarker"@, actions_text];
    let default = seq!["SecDefaultAction"@, actions_text];
    assert(act[0] == "SecAction"@ && act[1] == actions_text);
    assert(mark[0] == "SecMarker"@ && mark[1] == actions_text);
    assert(default[0] == "SecDefaultAction"@ && default[1] == actions_text);
    lemma_first_phase(actions, i);
    assert("SecRule"@.len() == 7 && "SecAction"@.len() == 9 && "SecDefaultAction"@.len() == 16
        && "SecMarker"@.len() == 9);
    let phase = match crate::parse::first_phase(actions) {
        Some(p) => p,
        None => Phase::RequestBody,
    };
    assert(directive_line(default, line) == LineView::Directive(
        DirectiveView::DefaultAction { phase, actions },
    ));
}

/// Whether no action of a list names a phase.
pub open spec fn names_no_phase(actions: Seq<ActionView>) -> bool {
    forall|i: int| 0 <= i < actions.len() ==> !((#[trigger] actions[i]) is Phase)
}

proof fn lemma_first_phase(actions: Seq<ActionView>, i: int)
    ensures
        0 <= i < actions.len() && actions[i] is Phase && names_no_phase(actions.take(i))
            ==> crate::parse::first_phase(actions) == Some(actions[i]->Phase_0),
        names_no_phase(actions) ==> crate::parse::first_phase(actions) is None,
    decreases actions.len(),
{
    if actions.len() > 0 {
        let rest = actions.drop_first();
        lemma_first_phase(rest, i - 1);
        if 0 < i < actions.len() && names_no_phase(actions.take(i)) {
            assert(actions.take(i)[0] == actions[0]);
            assert(rest[i - 1] == actions[i]);
            assert forall|j: int| 0 <= j < i - 1 implies !((#[trigger] rest.take(i - 1)[j])
                is Phase) by {
                assert(rest.take(i - 1)[j] == actions.take(i)[j + 1]);
            }
            assert(names_no_phase(rest.take(i - 1)));
        }
        if names_no_phase(actions) {
            assert(!(actions[0] is Phase));
            assert forall|j: int| 0 <= j < rest.len() implies !((#[trigger] rest[j]) is Phase) by {
                assert(rest[j] == actions[j + 1]);
            }
        }
    }
}

/// A blank line and a comment say nothing.
pub proof fn comments_say_nothing(text: Seq<char>, line: usize)
    requires
        text.len() == 0 || !is_white(text.last()),
    ensures
        line_of(Seq::<char>::empty(), line) == LineView::Nothing,
        line_of(seq!['#'] + text, line) == LineView::Nothing,
{
    let s = seq!['#'] + text;
    assert(s[0] == '#');
    assert(s.last() == if text.len() == 0 {
        '#'
    } else {
        text.last()
    });
    lemma_untrimmed(s);
}

} // verus!
