//! The command language written inside command comments, and its parser.
//!
//! A command list is a sequence of commands, each closed by `;`:
//!
//! ```text
//! commands := (command ';')*
//! command  := "new" | "start-add" | "stop-add"
//!           | "inject" payload | "image" payload | "class" payload
//! payload  := '[' text ']'
//! ```
//!
//! Whitespace may stand between tokens. Inside a payload, `\[`, `\]`, `\n`,
//! `\"` and `\'` are escapes for `[`, `]`, a line break and the two quotes.

use vstd::prelude::*;

use crate::text::{
    chars_of, lemma_skip_ws_bounds, occurs, occurs_at, skip_whitespace,
    skip_ws, slice_of, string_of, trim, trimmed,
};

verus! {

/// A command that a notebook cell can carry.
#[derive(Debug, PartialEq, Eq)]
pub enum Command {
    /// Start a new page.
    NewPage,
    /// From here on, add the cell's lines to the latest page.
    StartAddToPage,
    /// Stop adding the cell's lines to the latest page.
    StopAddToPage,
    /// Add the given text to the latest page.
    InjectToPage(String),
    /// Fill the images of the cell into the given template and add the
    /// result to the latest page.
    WrapImage(String),
    /// Set the class of the latest page.
    PageClass(String),
}

/// Why a command list could not be parsed.
#[derive(Debug, PartialEq, Eq)]
pub enum ParseError {
    /// A name that is no command. Holds the name.
    UnknownCommand(String),
    /// The payload of a command is missing or has no closing `]`. Holds the
    /// command's name.
    Content(String),
    /// A command is not followed by `;`. Holds the text after the command.
    MissingComma(String),
    /// Text is left after the last command. Holds that text.
    Remaining(String),
}

/// What a [`Command`] stands for.
pub enum CommandModel {
    NewPage,
    StartAddToPage,
    StopAddToPage,
    InjectToPage(Seq<char>),
    WrapImage(Seq<char>),
    PageClass(Seq<char>),
}

/// What a [`ParseError`] stands for.
pub enum ParseErrorModel {
    UnknownCommand(Seq<char>),
    Content(Seq<char>),
    MissingComma(Seq<char>),
    Remaining(Seq<char>),
}

impl View for Command {
    type V = CommandModel;

    open spec fn view(&self) -> CommandModel {
        match self {
            Command::NewPage => CommandModel::NewPage,
            Command::StartAddToPage => CommandModel::StartAddToPage,
            Command::StopAddToPage => CommandModel::StopAddToPage,
            Command::InjectToPage(t) => CommandModel::InjectToPage(t@),
            Command::WrapImage(t) => CommandModel::WrapImage(t@),
            Command::PageClass(t) => CommandModel::PageClass(t@),
        }
    }
}

impl View for ParseError {
    type V = ParseErrorModel;

    open spec fn view(&self) -> ParseErrorModel {
        match self {
            ParseError::UnknownCommand(t) => ParseErrorModel::UnknownCommand(t@),
            ParseError::Content(t) => ParseErrorModel::Content(t@),
            ParseError::MissingComma(t) => ParseErrorModel::MissingComma(t@),
            ParseError::Remaining(t) => ParseErrorModel::Remaining(t@),
        }
    }
}

impl ParseError {
    /// A sentence that says what went wrong.
    pub fn message(&self) -> (r: String)
        ensures
            r@ == match self {
                ParseError::UnknownCommand(t) => "Unknown command '"@ + t@ + "'. "@,
                ParseError::Content(t) => "Content after '"@ + t@ + "' could not be parsed correctly. "@,
                ParseError::MissingComma(t) => "Missing comma before '"@ + t@ + "'. "@,
                ParseError::Remaining(t) => "Unable to parse remaining '"@ + t@ + "'. "@,
            },
    {
        let (head, t, tail) = match self {
            ParseError::UnknownCommand(t) => ("Unknown command '", t, "'. "),
            ParseError::Content(t) => ("Content after '", t, "' could not be parsed correctly. "),
            ParseError::MissingComma(t) => ("Missing comma before '", t, "'. "),
            ParseError::Remaining(t) => ("Unable to parse remaining '", t, "'. "),
        };
        let mut r = String::from_str(head);
        r.append(t.as_str());
        r.append(tail);
        r
    }
}

/// The models of a list of commands.
pub open spec fn commands_view(v: Seq<Command>) -> Seq<CommandModel> {
    v.map_values(|c: Command| c@)
}

/// The model of a parse result.
pub open spec fn parse_view(r: Result<Vec<Command>, ParseError>) -> Result<
    Seq<CommandModel>,
    ParseErrorModel,
> {
    match r {
        Ok(v) => Ok(commands_view(v@)),
        Err(e) => Err(e@),
    }
}

impl Command {
    /// The keyword of [`Command::NewPage`].
    pub const NEW_PAGE: &'static str = "new";

    /// The keyword of [`Command::StartAddToPage`].
    pub const START_ADD_TO_PAGE: &'static str = "start-add";

    /// The keyword of [`Command::StopAddToPage`].
    pub const STOP_ADD_TO_PAGE: &'static str = "stop-add";

    /// The keyword of [`Command::InjectToPage`].
    pub const INJECT_TP_PAGE: &'static str = "inject";

    /// The keyword of [`Command::WrapImage`].
    pub const WRAP_IMAGE: &'static str = "image";

    /// The keyword of [`Command::PageClass`].
    pub const PAGE_CLASS: &'static str = "class";
}

pub open spec fn kw_new() -> Seq<char> {
    seq!['n', 'e', 'w']
}

pub open spec fn kw_start() -> Seq<char> {
    seq!['s', 't', 'a', 'r', 't', '-', 'a', 'd', 'd']
}

pub open spec fn kw_stop() -> Seq<char> {
    seq!['s', 't', 'o', 'p', '-', 'a', 'd', 'd']
}

pub open spec fn kw_inject() -> Seq<char> {
    seq!['i', 'n', 'j', 'e', 'c', 't']
}

pub open spec fn kw_image() -> Seq<char> {
    seq!['i', 'm', 'a', 'g', 'e']
}

pub open spec fn kw_class() -> Seq<char> {
    seq!['c', 'l', 'a', 's', 's']
}

/// The keyword constants spell the keywords that the grammar reads.
pub proof fn lemma_keyword_constants()
    ensures
        Command::NEW_PAGE@ == kw_new(),
        Command::START_ADD_TO_PAGE@ == kw_start(),
        Command::STOP_ADD_TO_PAGE@ == kw_stop(),
        Command::INJECT_TP_PAGE@ == kw_inject(),
        Command::WRAP_IMAGE@ == kw_image(),
        Command::PAGE_CLASS@ == kw_class(),
{
    reveal_strlit("new");
    reveal_strlit("start-add");
    reveal_strlit("stop-add");
    reveal_strlit("inject");
    reveal_strlit("image");
    reveal_strlit("class");
    assert(Command::NEW_PAGE@ =~= kw_new());
    assert(Command::START_ADD_TO_PAGE@ =~= kw_start());
    assert(Command::STOP_ADD_TO_PAGE@ =~= kw_stop());
    assert(Command::INJECT_TP_PAGE@ =~= kw_inject());
    assert(Command::WRAP_IMAGE@ =~= kw_image());
    assert(Command::PAGE_CLASS@ =~= kw_class());
}

/// The character that the escape `\c` stands for, if `\c` is an escape.
pub open spec fn escape_target(c: char) -> Option<char> {
    if c == '[' || c == ']' || c == '"' || c == '\'' {
        Some(c)
    } else if c == 'n' {
        Some('\n')
    } else {
        None
    }
}

/// `s` with each escape replaced, in one pass from left to right.
pub open spec fn unescape(s: Seq<char>) -> Seq<char>
    decreases s.len(),
{
    if s.len() == 0 {
        Seq::empty()
    } else if s.len() >= 2 && s[0] == '\\' && escape_target(s[1]) is Some {
        seq![escape_target(s[1])->0] + unescape(s.skip(2))
    } else {
        seq![s[0]] + unescape(s.skip(1))
    }
}

/// Position `k` holds the last character of a payload: a character other
/// than a backslash, followed by a bracket.
pub open spec fn closes_payload(s: Seq<char>, k: int) -> bool {
    0 <= k && k + 1 < s.len() && s[k] != '\\' && (s[k + 1] == '[' || s[k + 1] == ']')
}

/// The first position at or after `k` that closes a payload, or `s.len()`.
pub open spec fn first_close(s: Seq<char>, k: int) -> int
    decreases s.len() - k,
{
    if k < 0 || k + 1 >= s.len() {
        s.len() as int
    } else if closes_payload(s, k) {
        k
    } else {
        first_close(s, k + 1)
    }
}

/// The payload that opens at `i`: its text once unescaped, and the position
/// after its closing `]`.
pub open spec fn payload_at(s: Seq<char>, i: int) -> Option<(Seq<char>, int)> {
    if 0 <= i < s.len() && s[i] == '[' {
        if i + 1 < s.len() && s[i + 1] == ']' {
            Some((Seq::empty(), i + 2))
        } else {
            let k = first_close(s, i + 1);
            if k < s.len() && s[k + 1] == ']' {
                Some((unescape(s.subrange(i + 1, k + 1)), k + 2))
            } else {
                None
            }
        }
    } else {
        None
    }
}

/// The payload after a keyword that ends at `j`, whitespace around it
/// skipped, and the position after it.
pub open spec fn payload_after(s: Seq<char>, j: int) -> (Option<Seq<char>>, int) {
    let j1 = skip_ws(s, j);
    match payload_at(s, j1) {
        Some((t, e)) => (Some(t), skip_ws(s, e)),
        None => (None, j1),
    }
}

pub open spec fn ident_start(c: char) -> bool {
    ('a' <= c && c <= 'z') || ('A' <= c && c <= 'Z') || c == '_'
}

pub open spec fn ident_char(c: char) -> bool {
    ident_start(c) || ('0' <= c && c <= '9')
}

/// The end of the identifier characters that start at `k`.
pub open spec fn ident_end(s: Seq<char>, k: int) -> int
    decreases s.len() - k,
{
    if 0 <= k < s.len() && ident_char(s[k]) {
        ident_end(s, k + 1)
    } else {
        k
    }
}

/// The command that starts at `i`, or the error it makes, and the position
/// after it; `None` where nothing at `i` reads as a command.
pub open spec fn command_at(s: Seq<char>, i: int) -> Option<
    (Result<CommandModel, ParseErrorModel>, int),
> {
    if occurs_at(s, i, kw_new()) {
        Some((Ok(CommandModel::NewPage), i + 3))
    } else if occurs_at(s, i, kw_start()) {
        Some((Ok(CommandModel::StartAddToPage), i + 9))
    } else if occurs_at(s, i, kw_stop()) {
        Some((Ok(CommandModel::StopAddToPage), i + 8))
    } else if occurs_at(s, i, kw_inject()) {
        let (p, e) = payload_after(s, i + 6);
        match p {
            Some(t) => Some((Ok(CommandModel::InjectToPage(t)), e)),
            None => Some((Err(ParseErrorModel::Content(kw_inject())), e)),
        }
    } else if occurs_at(s, i, kw_image()) {
        let (p, e) = payload_after(s, i + 5);
        match p {
            Some(t) => Some((Ok(CommandModel::WrapImage(t)), e)),
            None => Some((Err(ParseErrorModel::Content(kw_image())), e)),
        }
    } else if occurs_at(s, i, kw_class()) {
        let (p, e) = payload_after(s, i + 5);
        match p {
            Some(t) => Some((Ok(CommandModel::PageClass(trim(t))), e)),
            None => Some((Err(ParseErrorModel::Content(kw_class())), e)),
        }
    } else if 0 <= i < s.len() && ident_start(s[i]) {
        let e = ident_end(s, i + 1);
        Some((Err(ParseErrorModel::UnknownCommand(s.subrange(i, e))), e))
    } else {
        None
    }
}

/// The `;` after a command that ends at `p`: `None` and the position after
/// it and the whitespace that follows, or the error and the end of `s`.
pub open spec fn separator_at(s: Seq<char>, p: int) -> (Option<ParseErrorModel>, int) {
    let q = skip_ws(s, p);
    if q < s.len() && s[q] == ';' {
        (None, skip_ws(s, q + 1))
    } else {
        (Some(ParseErrorModel::MissingComma(s.subrange(q, s.len() as int))), s.len() as int)
    }
}

/// The commands from position `p` on, or the first error among them.
pub open spec fn parse_from(s: Seq<char>, p: int) -> Result<Seq<CommandModel>, ParseErrorModel>
    decreases s.len() - p,
{
    match command_at(s, p) {
        None => if p >= s.len() {
            Ok(Seq::empty())
        } else {
            Err(ParseErrorModel::Remaining(s.subrange(p, s.len() as int)))
        },
        Some((c, p1)) => {
            let (sep, p2) = separator_at(s, p1);
            match c {
                Err(e) => Err(e),
                Ok(cmd) => match sep {
                    Some(e) => Err(e),
                    None => if p < p2 <= s.len() {
                        match parse_from(s, p2) {
                            Ok(rest) => Ok(seq![cmd] + rest),
                            Err(e) => Err(e),
                        }
                    } else {
                        Ok(Seq::empty())
                    },
                },
            }
        },
    }
}

/// The result of parsing `s` as a whole command list.
pub open spec fn spec_parse(s: Seq<char>) -> Result<Seq<CommandModel>, ParseErrorModel> {
    parse_from(s, skip_ws(s, 0))
}

// ---------------------------------------------------------------------------
// Lemmas on the grammar
proof fn lemma_first_close(s: Seq<char>, k: int)
    requires
        0 <= k <= s.len(),
    ensures
        k <= first_close(s, k) <= s.len(),
        first_close(s, k) < s.len() ==> closes_payload(s, first_close(s, k)),
        forall|m: int| k <= m < first_close(s, k) ==> !closes_payload(s, m),
    decreases s.len() - k,
{
    if k + 1 < s.len() && !closes_payload(s, k) {
        lemma_first_close(s, k + 1);
    }
}

proof fn lemma_ident_end(s: Seq<char>, k: int)
    requires
        0 <= k <= s.len(),
    ensures
        k <= ident_end(s, k) <= s.len(),
    decreases s.len() - k,
{
    if k < s.len() && ident_char(s[k]) {
        lemma_ident_end(s, k + 1);
    }
}

proof fn lemma_payload_after(s: Seq<char>, j: int)
    requires
        0 <= j <= s.len(),
    ensures
        j <= payload_after(s, j).1 <= s.len(),
{
    lemma_skip_ws_bounds(s, j);
    let j1 = skip_ws(s, j);
    if 0 <= j1 < s.len() && s[j1] == '[' && !(j1 + 1 < s.len() && s[j1 + 1] == ']') {
        lemma_first_close(s, j1 + 1);
    }
    match payload_at(s, j1) {
        Some((t, e)) => {
            lemma_skip_ws_bounds(s, e);
        },
        None => {},
    }
}

/// A command consumes at least one character, and no more than there are.
proof fn lemma_command_progress(s: Seq<char>, i: int)
    requires
        0 <= i <= s.len(),
        command_at(s, i) is Some,
    ensures
        i < (command_at(s, i)->0).1 <= s.len(),
{
    if occurs_at(s, i, kw_new()) || occurs_at(s, i, kw_start()) || occurs_at(s, i, kw_stop()) {
    } else if occurs_at(s, i, kw_inject()) {
        lemma_payload_after(s, i + 6);
    } else if occurs_at(s, i, kw_image()) || occurs_at(s, i, kw_class()) {
        lemma_payload_after(s, i + 5);
    } else {
        lemma_ident_end(s, i + 1);
    }
}

proof fn lemma_separator(s: Seq<char>, p: int)
    requires
        0 <= p <= s.len(),
    ensures
        p <= separator_at(s, p).1 <= s.len(),
{
    lemma_skip_ws_bounds(s, p);
    let q = skip_ws(s, p);
    if q < s.len() && s[q] == ';' {
        lemma_skip_ws_bounds(s, q + 1);
    }
}

/// The escape that stands for `c` in a payload, or `c` itself.
pub open spec fn escape_char(c: char) -> Seq<char> {
    if c == '[' || c == ']' || c == '"' || c == '\'' {
        seq!['\\', c]
    } else if c == '\n' {
        seq!['\\', 'n']
    } else {
        seq![c]
    }
}

/// `t` written as payload text: each bracket, quote and line break escaped.
pub open spec fn escape(t: Seq<char>) -> Seq<char>
    decreases t.len(),
{
    if t.len() == 0 {
        Seq::empty()
    } else {
        escape_char(t[0]) + escape(t.skip(1))
    }
}

pub open spec fn no_backslash(t: Seq<char>) -> bool {
    forall|i: int| 0 <= i < t.len() ==> #[trigger] t[i] != '\\'
}

/// Every bracket in `e` but the first character follows a backslash; `e`
/// does not start with a bracket nor end with a backslash.
pub open spec fn brackets_escaped(e: Seq<char>) -> bool {
    &&& forall|k: int|
        0 <= k && k + 1 < e.len() && (#[trigger] e[k + 1] == '[' || e[k + 1] == ']') ==> e[k]
            == '\\'
    &&& e.len() > 0 ==> e[0] != '[' && e[0] != ']' && e.last() != '\\'
}

proof fn lemma_unescape_escape(t: Seq<char>)
    requires
        no_backslash(t),
    ensures
        unescape(escape(t)) == t,
    decreases t.len(),
{
    if t.len() > 0 {
        let c = t[0];
        let rest = t.skip(1);
        assert(no_backslash(rest)) by {
            assert forall|i: int| 0 <= i < rest.len() implies #[trigger] rest[i] != '\\' by {
                assert(rest[i] == t[i + 1]);
            }
        }
        lemma_unescape_escape(rest);
        let p = escape_char(c);
        let e = p + escape(rest);
        if p.len() == 2 {
            assert(e.skip(2) =~= escape(rest));
        } else {
            assert(e.skip(1) =~= escape(rest));
        }
        assert(seq![c] + rest =~= t);
    }
}

proof fn lemma_escape_shape(t: Seq<char>)
    requires
        no_backslash(t),
    ensures
        brackets_escaped(escape(t)),
    decreases t.len(),
{
    if t.len() > 0 {
        let c = t[0];
        let rest = t.skip(1);
        assert(no_backslash(rest)) by {
            assert forall|i: int| 0 <= i < rest.len() implies #[trigger] rest[i] != '\\' by {
                assert(rest[i] == t[i + 1]);
            }
        }
        lemma_escape_shape(rest);
        let p = escape_char(c);
        let r = escape(rest);
        let e = p + r;
        assert forall|k: int|
            0 <= k && k + 1 < e.len() && (#[trigger] e[k + 1] == '[' || e[k + 1] == ']') implies e[k]
            == '\\' by {
            if k + 1 >= p.len() + 1 {
                assert(e[k + 1] == r[k + 1 - p.len()]);
                assert(e[k] == r[k - p.len()]);
                assert(r[(k - p.len()) + 1] == r[k + 1 - p.len()]);
            } else if k + 1 == p.len() {
                assert(e[k + 1] == r[0]);
            }
        }
        if r.len() > 0 {
            assert(e.last() == r.last());
        }
    }
}

proof fn lemma_first_close_is(s: Seq<char>, k: int, m: int)
    requires
        0 <= k <= m,
        closes_payload(s, m),
        forall|j: int| k <= j < m ==> !closes_payload(s, j),
    ensures
        first_close(s, k) == m,
    decreases m - k,
{
    if k < m {
        assert(!closes_payload(s, k));
        lemma_first_close_is(s, k + 1, m);
    }
}

/// A payload written with `escape` from text without backslashes reads back
/// as that text: the payload ends at its own closing bracket, and each escape
/// is replaced exactly once.
pub proof fn lemma_escaped_payload_round_trip(t: Seq<char>)
    requires
        no_backslash(t),
    ensures
        unescape(escape(t)) == t,
        payload_at(seq!['['] + escape(t) + seq![']'], 0) == Some((t, escape(t).len() + 2int)),
{
    lemma_unescape_escape(t);
    lemma_escape_shape(t);
    let e = escape(t);
    let s = seq!['['] + e + seq![']'];
    let n = e.len() as int;
    if n == 0 {
        assert(t.len() == 0) by {
            if t.len() > 0 {
                assert(escape_char(t[0]).len() > 0);
            }
        }
        assert(t =~= Seq::<char>::empty());
    } else {
        assert(s[1] == e[0]);
        assert forall|j: int| 1 <= j < n implies !closes_payload(s, j) by {
            assert(s[j] == e[j - 1]);
            assert(s[j + 1] == e[j]);
            assert(e[(j - 1) + 1] == e[j]);
        }
        assert(s[n] == e.last());
        assert(s[n + 1] == ']');
        lemma_first_close_is(s, 1, n);
        assert(s.subrange(1, n + 1) =~= e);
    }
}

/// Parsing is a function of its input: equal inputs give equal results, and
/// every input gives one.
pub proof fn lemma_parse_deterministic(a: Seq<char>, b: Seq<char>)
    requires
        a == b,
    ensures
        spec_parse(a) == spec_parse(b),
        spec_parse(a) is Ok || spec_parse(a) is Err,
{
}

// ---------------------------------------------------------------------------
// The parser
/// The escape target of `c`, as the executable counterpart of `escape_target`.
fn escape_of(c: char) -> (r: Option<char>)
    ensures
        r == escape_target(c),
{
    if c == '[' || c == ']' || c == '"' || c == '\'' {
        Some(c)
    } else if c == 'n' {
        Some('\n')
    } else {
        None
    }
}

/// `s[from..to]` with each escape replaced.
fn unescaped(s: &Vec<char>, from: usize, to: usize) -> (r: Vec<char>)
    requires
        from <= to <= s.len(),
    ensures
        r@ == unescape(s@.subrange(from as int, to as int)),
{
    let ghost raw = s@.subrange(from as int, to as int);
    let mut out: Vec<char> = Vec::new();
    let mut k = from;
    while k < to
        invariant
            from <= k <= to <= s.len(),
            raw == s@.subrange(from as int, to as int),
            unescape(raw) == out@ + unescape(s@.subrange(k as int, to as int)),
        decreases to - k,
    {
        let ghost rest = s@.subrange(k as int, to as int);
        if k + 1 < to && s[k] == '\\' && escape_of(s[k + 1]).is_some() {
            let t = escape_of(s[k + 1]).unwrap();
            assert(rest.skip(2) =~= s@.subrange(k + 2, to as int));
            out.push(t);
            k = k + 2;
        } else {
            assert(rest.skip(1) =~= s@.subrange(k + 1, to as int));
            out.push(s[k]);
            k = k + 1;
        }
        assert(unescape(raw) =~= out@ + unescape(s@.subrange(k as int, to as int)));
    }
    assert(unescape(s@.subrange(to as int, to as int)) =~= Seq::<char>::empty());
    assert(out@ + Seq::<char>::empty() =~= out@);
    out
}

/// The payload that opens at `i`, as `payload_at` gives it.
fn payload(s: &Vec<char>, i: usize) -> (r: Option<(Vec<char>, usize)>)
    ensures
        match payload_at(s@, i as int) {
            Some((t, e)) => r is Some && (r->0).0@ == t && (r->0).1 == e,
            None => r is None,
        },
{
    if i >= s.len() || s[i] != '[' {
        return None;
    }
    if i + 1 < s.len() && s[i + 1] == ']' {
        let v: Vec<char> = Vec::new();
        assert(v@ =~= Seq::<char>::empty());
        return Some((v, i + 2));
    }
    let mut k = i + 1;
    while k < s.len() && k + 1 < s.len() && !(s[k] != '\\' && (s[k + 1] == '[' || s[k + 1]
        == ']'))
        invariant
            i + 1 <= k <= s.len(),
            first_close(s@, i + 1) == first_close(s@, k as int),
        decreases s.len() - k,
    {
        k = k + 1;
    }
    if k < s.len() && k + 1 < s.len() && s[k + 1] == ']' {
        let t = unescaped(s, i + 1, k + 1);
        Some((t, k + 2))
    } else {
        None
    }
}

/// The bracketed payload at the start of `text`, unescaped, if there is one.
///
/// The payload ends at the first character other than a backslash that is
/// followed by a bracket, where that bracket is `]`; an empty payload is
/// `[]`. Text after the payload is not looked at.
pub fn parse_content(text: &str) -> (r: Option<String>)
    ensures
        match payload_at(text@, 0) {
            Some((t, e)) => r is Some && r->0@ == t,
            None => r is None,
        },
{
    let s = chars_of(text);
    match payload(&s, 0) {
        Some((t, e)) => Some(string_of(&t)),
        None => None,
    }
}

/// The payload after a keyword that ends at `j`, as `payload_after` gives it.
fn payload_following(s: &Vec<char>, j: usize) -> (r: (Option<Vec<char>>, usize))
    requires
        j <= s.len(),
    ensures
        r.1 == payload_after(s@, j as int).1,
        match payload_after(s@, j as int).0 {
            Some(t) => r.0 is Some && r.0->0@ == t,
            None => r.0 is None,
        },
{
    let j1 = skip_whitespace(s, j);
    match payload(s, j1) {
        Some((t, e)) => {
            proof {
                lemma_payload_after(s@, j as int);
            }
            let e1 = skip_whitespace(s, e);
            (Some(t), e1)
        },
        None => (None, j1),
    }
}

/// The end of the identifier characters that start at `k`.
fn identifier_end(s: &Vec<char>, k: usize) -> (r: usize)
    requires
        k <= s.len(),
    ensures
        r == ident_end(s@, k as int),
{
    let mut e = k;
    while e < s.len() && (('a' <= s[e] && s[e] <= 'z') || ('A' <= s[e] && s[e] <= 'Z') || s[e]
        == '_' || ('0' <= s[e] && s[e] <= '9'))
        invariant
            k <= e <= s.len(),
            ident_end(s@, k as int) == ident_end(s@, e as int),
        decreases s.len() - e,
    {
        e = e + 1;
    }
    e
}

/// The commands that carry a payload.
enum PayloadKind {
    Inject,
    Wrap,
    Class,
}

/// The command of kind `kind` built from the payload `t`.
spec fn payload_model(kind: PayloadKind, t: Seq<char>) -> CommandModel {
    match kind {
        PayloadKind::Inject => CommandModel::InjectToPage(t),
        PayloadKind::Wrap => CommandModel::WrapImage(t),
        PayloadKind::Class => CommandModel::PageClass(trim(t)),
    }
}

/// The command of kind `kind` whose keyword, `name`, ends at `j`: built from
/// the payload that follows, or the error that the payload is missing.
fn payload_command(s: &Vec<char>, j: usize, name: &Vec<char>, kind: PayloadKind) -> (r: (
    Result<Command, ParseError>,
    usize,
))
    requires
        j <= s.len(),
    ensures
        r.1 == payload_after(s@, j as int).1,
        match payload_after(s@, j as int).0 {
            Some(t) => r.0 is Ok && r.0->Ok_0@ == payload_model(kind, t),
            None => r.0 is Err && r.0->Err_0@ == ParseErrorModel::Content(name@),
        },
{
    let (p, e) = payload_following(s, j);
    match p {
        Some(t) => {
            let c = match kind {
                PayloadKind::Inject => Command::InjectToPage(string_of(&t)),
                PayloadKind::Wrap => Command::WrapImage(string_of(&t)),
                PayloadKind::Class => Command::PageClass(string_of(&trimmed(&t))),
            };
            (Ok(c), e)
        },
        None => (Err(ParseError::Content(string_of(name))), e),
    }
}

/// The command that starts at `i`, as `command_at` gives it.
fn command(s: &Vec<char>, i: usize) -> (r: Option<(Result<Command, ParseError>, usize)>)
    requires
        i <= s.len(),
    ensures
        match command_at(s@, i as int) {
            Some((c, e)) => r is Some && (r->0).1 == e && match c {
                Ok(m) => (r->0).0 is Ok && (r->0).0->Ok_0@ == m,
                Err(m) => (r->0).0 is Err && (r->0).0->Err_0@ == m,
            },
            None => r is None,
        },
{
    let kw_n = vec!['n', 'e', 'w'];
    let kw_sa = vec!['s', 't', 'a', 'r', 't', '-', 'a', 'd', 'd'];
    let kw_so = vec!['s', 't', 'o', 'p', '-', 'a', 'd', 'd'];
    let kw_in = vec!['i', 'n', 'j', 'e', 'c', 't'];
    let kw_im = vec!['i', 'm', 'a', 'g', 'e'];
    let kw_cl = vec!['c', 'l', 'a', 's', 's'];
    assert(kw_n@ =~= kw_new());
    assert(kw_sa@ =~= kw_start());
    assert(kw_so@ =~= kw_stop());
    assert(kw_in@ =~= kw_inject());
    assert(kw_im@ =~= kw_image());
    assert(kw_cl@ =~= kw_class());
    if occurs(s, i, &kw_n) {
        Some((Ok(Command::NewPage), i + 3))
    } else if occurs(s, i, &kw_sa) {
        Some((Ok(Command::StartAddToPage), i + 9))
    } else if occurs(s, i, &kw_so) {
        Some((Ok(Command::StopAddToPage), i + 8))
    } else if occurs(s, i, &kw_in) {
        Some(payload_command(s, i + 6, &kw_in, PayloadKind::Inject))
    } else if occurs(s, i, &kw_im) {
        Some(payload_command(s, i + 5, &kw_im, PayloadKind::Wrap))
    } else if occurs(s, i, &kw_cl) {
        Some(payload_command(s, i + 5, &kw_cl, PayloadKind::Class))
    } else if i < s.len() && (('a' <= s[i] && s[i] <= 'z') || ('A' <= s[i] && s[i] <= 'Z') || s[i]
        == '_') {
        proof {
            lemma_ident_end(s@, i + 1);
        }
        let e = identifier_end(s, i + 1);
        Some((Err(ParseError::UnknownCommand(string_of(&slice_of(s, i, e)))), e))
    } else {
        None
    }
}

/// Parses a command list: the commands in order, or the first error.
///
/// Each command must be followed by `;`; whitespace around commands is
/// ignored, and the whole input must be consumed.
pub fn parse(stream: &str) -> (r: Result<Vec<Command>, ParseError>)
    ensures
        parse_view(r) == spec_parse(stream@),
{
    let s = chars_of(stream);
    let p0 = skip_whitespace(&s, 0);
    let mut p = p0;
    let mut out: Vec<Command> = Vec::new();
    loop
        invariant
            p0 <= p <= s.len(),
            s@ == stream@,
            p0 == skip_ws(s@, 0),
            spec_parse(s@) == (match parse_from(s@, p as int) {
                Ok(rest) => Ok(commands_view(out@) + rest),
                Err(e) => Err(e),
            }),
        decreases s.len() - p,
    {
        match command(&s, p) {
            None => {
                if p >= s.len() {
                    assert(commands_view(out@) + Seq::<CommandModel>::empty() =~= commands_view(
                        out@,
                    ));
                    return Ok(out);
                }
                return Err(ParseError::Remaining(string_of(&slice_of(&s, p, s.len()))));
            },
            Some((c, p1)) => {
                proof {
                    lemma_command_progress(s@, p as int);
                    lemma_separator(s@, p1 as int);
                }
                let q = skip_whitespace(&s, p1);
                let sep_ok = q < s.len() && s[q] == ';';
                match c {
                    Err(e) => {
                        return Err(e);
                    },
                    Ok(cmd) => {
                        if !sep_ok {
                            return Err(
                                ParseError::MissingComma(string_of(&slice_of(&s, q, s.len()))),
                            );
                        }
                        let p2 = skip_whitespace(&s, q + 1);
                        let ghost old_out = out@;
                        out.push(cmd);
                        proof {
                            assert(commands_view(out@) =~= commands_view(old_out) + seq![cmd@]);
                            match parse_from(s@, p2 as int) {
                                Ok(rest) => {
                                    assert(commands_view(out@) + rest =~= commands_view(old_out)
                                        + (seq![cmd@] + rest));
                                },
                                Err(_) => {},
                            }
                        }
                        p = p2;
                    },
                }
            },
        }
    }
}

} // verus!
