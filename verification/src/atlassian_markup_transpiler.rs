//! The transpiler core: a block-scoped grammar for a wiki markup dialect
//! (headings `hN.`, fenced `{code}` blocks with `key=value` options, and four
//! admonition kinds), the AST it produces, and the Markdown renderer.
//!
//! The grammar is stated once as spec functions over `Seq<char>` (the
//! mathematical model of the input text) and implemented by executable
//! recursive-descent functions whose contracts say they agree with that
//! model exactly, error cases included.

use vstd::prelude::*;

verus! {

// ---------------------------------------------------------------------------
// AST
// ---------------------------------------------------------------------------

/// The four admonition (callout) kinds the dialect models.
#[derive(Debug, PartialEq, Eq, Clone, Copy, Structural)]
pub enum AdmotionKind {
    Info,
    Tip,
    Warning,
    Note,
}

/// What went wrong, by kind. `IllegalHeadingLevel` is reserved for grammar
/// extensions: the current heading grammar only ever accepts digits 1..6 and
/// falls back to plain text otherwise, so no input produces it today.
#[derive(Debug, PartialEq, Eq, Clone, Copy, Structural)]
pub enum TranspileErrorKind {
    UnterminatedBlock,
    UnknownOption,
    MalformedOptionValue,
    IllegalHeadingLevel,
}

/// A structured parse failure: the kind of fault and the character position
/// (an index into the input, counted in characters) where it was detected.
#[derive(Debug, PartialEq, Eq, Clone, Copy, Structural)]
pub struct TranspileError {
    pub kind: TranspileErrorKind,
    pub at: usize,
}

/// Ghost counterpart of `TranspileError` with an unbounded position.
pub ghost struct ErrorModel {
    pub kind: TranspileErrorKind,
    pub at: int,
}

impl View for TranspileError {
    type V = ErrorModel;

    open spec fn view(&self) -> ErrorModel {
        ErrorModel { kind: self.kind, at: self.at as int }
    }
}

/// One recognized construct, or a run of plain text. Headings carry their
/// level (1..6); code blocks keep only the `language` option; admonitions
/// keep the first `title`/`show_icon` options (`show_icon` defaults to true
/// and, deliberately, has no effect on rendering).
#[derive(Debug, PartialEq, Eq)]
pub enum MarkUpNode {
    PlainText(String),
    Heading { level: u32, text: String },
    CodeBlock { language: Option<String>, content: String },
    Admotion { kind: AdmotionKind, title: Option<String>, show_icon: bool, content: String },
}

/// Ghost counterpart of `MarkUpNode`, over `Seq<char>`.
pub ghost enum NodeModel {
    PlainText { text: Seq<char> },
    Heading { level: int, text: Seq<char> },
    CodeBlock { language: Option<Seq<char>>, content: Seq<char> },
    Admotion { kind: AdmotionKind, title: Option<Seq<char>>, show_icon: bool, content: Seq<char> },
}

impl View for MarkUpNode {
    type V = NodeModel;

    open spec fn view(&self) -> NodeModel {
        match self {
            MarkUpNode::PlainText(t) => NodeModel::PlainText { text: t@ },
            MarkUpNode::Heading { level, text } => NodeModel::Heading {
                level: *level as int,
                text: text@,
            },
            MarkUpNode::CodeBlock { language, content } => NodeModel::CodeBlock {
                language: match language {
                    Some(l) => Some(l@),
                    None => None,
                },
                content: content@,
            },
            MarkUpNode::Admotion { kind, title, show_icon, content } => NodeModel::Admotion {
                kind: *kind,
                title: match title {
                    Some(t) => Some(t@),
                    None => None,
                },
                show_icon: *show_icon,
                content: content@,
            },
        }
    }
}

// ---------------------------------------------------------------------------
// Character classes and elementary scanners (the spec model of the lexer)
// ---------------------------------------------------------------------------

/// Whitespace tolerated around block delimiters.
pub open spec fn ws_char(c: char) -> bool {
    c == ' ' || c == '\t' || c == '\n' || c == '\r'
}

/// Whitespace that may separate a heading's dot from its text, and that is
/// trimmed between a block body and its closing tag.
pub open spec fn inline_ws_char(c: char) -> bool {
    c == ' ' || c == '\t'
}

pub open spec fn digit_char(c: char) -> bool {
    48 <= c as u32 <= 57
}

pub open spec fn digit_val(c: char) -> int {
    c as u32 - 48
}

/// First character of a `language=` identifier: ASCII letter or underscore.
pub open spec fn ident_start_char(c: char) -> bool {
    (65 <= c as u32 <= 90) || (97 <= c as u32 <= 122) || c == '_'
}

/// Continuation character of a `language=` identifier.
pub open spec fn ident_char(c: char) -> bool {
    ident_start_char(c) || digit_char(c)
}

/// Position of the first non-whitespace character at or after `i` (or the
/// end of the text).
pub open spec fn skip_ws_from(s: Seq<char>, i: int) -> int
    decreases s.len() - i,
{
    if 0 <= i < s.len() && ws_char(s[i]) {
        skip_ws_from(s, i + 1)
    } else {
        i
    }
}

/// Position of the first character at or after `i` that is not a space or
/// tab.
pub open spec fn skip_inline_ws_from(s: Seq<char>, i: int) -> int
    decreases s.len() - i,
{
    if 0 <= i < s.len() && inline_ws_char(s[i]) {
        skip_inline_ws_from(s, i + 1)
    } else {
        i
    }
}

/// End of the maximal run of identifier characters starting at `i`.
pub open spec fn scan_ident_end(s: Seq<char>, i: int) -> int
    decreases s.len() - i,
{
    if 0 <= i < s.len() && ident_char(s[i]) {
        scan_ident_end(s, i + 1)
    } else {
        i
    }
}

/// End of the maximal run of decimal digits starting at `i`.
pub open spec fn scan_digits_end(s: Seq<char>, i: int) -> int
    decreases s.len() - i,
{
    if 0 <= i < s.len() && digit_char(s[i]) {
        scan_digits_end(s, i + 1)
    } else {
        i
    }
}

/// End of an option value that runs up to the next `|` or `}` (or the end of
/// the text): the form of `title=` values.
pub open spec fn scan_title_end(s: Seq<char>, i: int) -> int
    decreases s.len() - i,
{
    if 0 <= i < s.len() && s[i] != '|' && s[i] != '}' {
        scan_title_end(s, i + 1)
    } else {
        i
    }
}

/// Largest `e` in `lo..=hi` such that `s[lo..e]` does not end in a space or
/// tab: block content keeps everything up to its closing tag except that
/// trailing run.
pub open spec fn scan_back_inline_ws(s: Seq<char>, lo: int, hi: int) -> int
    decreases hi - lo,
{
    if lo < hi <= s.len() && 0 <= lo && inline_ws_char(s[hi - 1]) {
        scan_back_inline_ws(s, lo, hi - 1)
    } else {
        hi
    }
}

/// The pattern `pat` occurs in `s` starting exactly at `i`.
pub open spec fn pat_at(s: Seq<char>, i: int, pat: Seq<char>) -> bool {
    &&& 0 <= i
    &&& i + pat.len() <= s.len()
    &&& forall|k: int| 0 <= k < pat.len() ==> s[i + k] == pat[k]
}

/// Position of the first occurrence of `pat` at or after `i`, if any.
pub open spec fn find_pat_from(s: Seq<char>, i: int, pat: Seq<char>) -> Option<int>
    decreases s.len() - i,
{
    if i < 0 || i + pat.len() > s.len() {
        None
    } else if pat_at(s, i, pat) {
        Some(i)
    } else {
        find_pat_from(s, i + 1, pat)
    }
}

// ---------------------------------------------------------------------------
// Bounds of the elementary scanners
// ---------------------------------------------------------------------------

proof fn lemma_skip_ws_bounds(s: Seq<char>, i: int)
    requires
        0 <= i <= s.len(),
    ensures
        i <= skip_ws_from(s, i) <= s.len(),
    decreases s.len() - i,
{
    if i < s.len() && ws_char(s[i]) {
        lemma_skip_ws_bounds(s, i + 1);
    }
}

proof fn lemma_skip_inline_ws_bounds(s: Seq<char>, i: int)
    requires
        0 <= i <= s.len(),
    ensures
        i <= skip_inline_ws_from(s, i) <= s.len(),
    decreases s.len() - i,
{
    if i < s.len() && inline_ws_char(s[i]) {
        lemma_skip_inline_ws_bounds(s, i + 1);
    }
}

proof fn lemma_scan_ident_bounds(s: Seq<char>, i: int)
    requires
        0 <= i <= s.len(),
    ensures
        i <= scan_ident_end(s, i) <= s.len(),
    decreases s.len() - i,
{
    if i < s.len() && ident_char(s[i]) {
        lemma_scan_ident_bounds(s, i + 1);
    }
}

pub proof fn lemma_scan_digits_bounds(s: Seq<char>, i: int)
    requires
        0 <= i <= s.len(),
    ensures
        i <= scan_digits_end(s, i) <= s.len(),
    decreases s.len() - i,
{
    if i < s.len() && digit_char(s[i]) {
        lemma_scan_digits_bounds(s, i + 1);
    }
}

proof fn lemma_scan_title_bounds(s: Seq<char>, i: int)
    requires
        0 <= i <= s.len(),
    ensures
        i <= scan_title_end(s, i) <= s.len(),
    decreases s.len() - i,
{
    if i < s.len() && s[i] != '|' && s[i] != '}' {
        lemma_scan_title_bounds(s, i + 1);
    }
}

proof fn lemma_scan_back_bounds(s: Seq<char>, lo: int, hi: int)
    requires
        0 <= lo <= hi <= s.len(),
    ensures
        lo <= scan_back_inline_ws(s, lo, hi) <= hi,
    decreases hi - lo,
{
    if lo < hi && inline_ws_char(s[hi - 1]) {
        lemma_scan_back_bounds(s, lo, hi - 1);
    }
}

proof fn lemma_find_pat_bounds(s: Seq<char>, i: int, pat: Seq<char>, j: int)
    requires
        find_pat_from(s, i, pat) == Some(j),
    ensures
        i <= j,
        j + pat.len() <= s.len(),
        pat_at(s, j, pat),
    decreases s.len() - i,
{
    if !(i < 0 || i + pat.len() > s.len()) && !pat_at(s, i, pat) {
        lemma_find_pat_bounds(s, i + 1, pat, j);
    }
}

// ---------------------------------------------------------------------------
// Executable counterparts of the elementary scanners
// ---------------------------------------------------------------------------

/// Executable test for `ws_char`.
fn is_ws_char(c: char) -> (r: bool)
    ensures
        r == ws_char(c),
{
    c == ' ' || c == '\t' || c == '\n' || c == '\r'
}

/// Executable test for `inline_ws_char`.
fn is_inline_ws_char(c: char) -> (r: bool)
    ensures
        r == inline_ws_char(c),
{
    c == ' ' || c == '\t'
}

/// Executable test for `digit_char`.
pub(crate) fn is_digit_char(c: char) -> (r: bool)
    ensures
        r == digit_char(c),
{
    let u = c as u32;
    48 <= u && u <= 57
}

/// Executable test for `ident_start_char`.
fn is_ident_start_char(c: char) -> (r: bool)
    ensures
        r == ident_start_char(c),
{
    let u = c as u32;
    (65 <= u && u <= 90) || (97 <= u && u <= 122) || c == '_'
}

/// Executable test for `ident_char`.
fn is_ident_char(c: char) -> (r: bool)
    ensures
        r == ident_char(c),
{
    is_ident_start_char(c) || is_digit_char(c)
}

/// Advances past whitespace, computing `skip_ws_from`.
fn skip_ws(s: &str, i: usize) -> (j: usize)
    requires
        i <= s@.len(),
    ensures
        j as int == skip_ws_from(s@, i as int),
        i <= j <= s@.len(),
{
    let n = s.unicode_len();
    let mut j = i;
    while j < n && is_ws_char(s.get_char(j))
        invariant
            i <= j <= n,
            n == s@.len(),
            skip_ws_from(s@, i as int) == skip_ws_from(s@, j as int),
        decreases n - j,
    {
        j = j + 1;
    }
    proof {
        if j < n {
            assert(!ws_char(s@[j as int]));
        }
    }
    j
}

/// Advances past spaces and tabs, computing `skip_inline_ws_from`.
fn skip_inline_ws(s: &str, i: usize) -> (j: usize)
    requires
        i <= s@.len(),
    ensures
        j as int == skip_inline_ws_from(s@, i as int),
        i <= j <= s@.len(),
{
    let n = s.unicode_len();
    let mut j = i;
    while j < n && is_inline_ws_char(s.get_char(j))
        invariant
            i <= j <= n,
            n == s@.len(),
            skip_inline_ws_from(s@, i as int) == skip_inline_ws_from(s@, j as int),
        decreases n - j,
    {
        j = j + 1;
    }
    j
}

/// Decides whether `pat` occurs in `s` exactly at position `i`.
fn matches_pat_at(s: &str, i: usize, pat: &str) -> (r: bool)
    ensures
        r == pat_at(s@, i as int, pat@),
{
    let n = s.unicode_len();
    let m = pat.unicode_len();
    if i > n || m > n - i {
        return false;
    }
    let mut k: usize = 0;
    while k < m
        invariant
            0 <= k <= m,
            n == s@.len(),
            m == pat@.len(),
            i + m <= n,
            forall|l: int| 0 <= l < k ==> s@[i + l] == pat@[l],
        decreases m - k,
    {
        if s.get_char(i + k) != pat.get_char(k) {
            return false;
        }
        k = k + 1;
    }
    true
}

/// Finds the first occurrence of `pat` at or after `from`, computing
/// `find_pat_from`.
fn find_pat(s: &str, from: usize, pat: &str) -> (r: Option<usize>)
    ensures
        match r {
            Some(j) => find_pat_from(s@, from as int, pat@) == Some(j as int),
            None => find_pat_from(s@, from as int, pat@) is None,
        },
{
    let n = s.unicode_len();
    let m = pat.unicode_len();
    if m > n || from > n - m {
        return None;
    }
    let mut j = from;
    while j <= n - m
        invariant
            from <= j,
            j <= n - m + 1,
            m <= n,
            n == s@.len(),
            m == pat@.len(),
            find_pat_from(s@, from as int, pat@) == find_pat_from(s@, j as int, pat@),
        decreases n - j,
    {
        if matches_pat_at(s, j, pat) {
            return Some(j);
        }
        j = j + 1;
    }
    None
}

// ---------------------------------------------------------------------------
// Option lists (the `key=value` lists after `{code:` and `{<kind>:`)
// ---------------------------------------------------------------------------

/// A parsed code-block option. Transient: only `Language` survives into the
/// AST; the others are validated and then deliberately discarded.
#[derive(Debug, PartialEq, Eq)]
pub enum CodeBlockOption {
    Title(String),
    LineNumbers(bool),
    Language(String),
    FirstLine(u64),
    Collapse(bool),
}

/// Ghost counterpart of `CodeBlockOption`.
pub ghost enum CodeOptModel {
    Title(Seq<char>),
    LineNumbers(bool),
    Language(Seq<char>),
    FirstLine(int),
    Collapse(bool),
}

impl View for CodeBlockOption {
    type V = CodeOptModel;

    open spec fn view(&self) -> CodeOptModel {
        match self {
            CodeBlockOption::Title(t) => CodeOptModel::Title(t@),
            CodeBlockOption::LineNumbers(b) => CodeOptModel::LineNumbers(*b),
            CodeBlockOption::Language(l) => CodeOptModel::Language(l@),
            CodeBlockOption::FirstLine(v) => CodeOptModel::FirstLine(*v as int),
            CodeBlockOption::Collapse(b) => CodeOptModel::Collapse(*b),
        }
    }
}

/// A parsed admonition option. Transient: folded into the `Admotion` node.
#[derive(Debug, PartialEq, Eq)]
pub enum AdmotionOption {
    Title(String),
    ShowIcon(bool),
}

/// Ghost counterpart of `AdmotionOption`.
pub ghost enum AdmOptModel {
    Title(Seq<char>),
    ShowIcon(bool),
}

impl View for AdmotionOption {
    type V = AdmOptModel;

    open spec fn view(&self) -> AdmOptModel {
        match self {
            AdmotionOption::Title(t) => AdmOptModel::Title(t@),
            AdmotionOption::ShowIcon(b) => AdmOptModel::ShowIcon(*b),
        }
    }
}

/// Numeric value of the digit run `s[lo..hi]`, most significant digit first.
pub open spec fn digits_val_range(s: Seq<char>, lo: int, hi: int) -> int
    decreases hi - lo,
{
    if lo >= hi {
        0
    } else {
        digits_val_range(s, lo, hi - 1) * 10 + digit_val(s[hi - 1])
    }
}

/// A boolean token (`true` or `false`) at position `i`, with the position
/// just after it.
pub open spec fn bool_at(s: Seq<char>, i: int) -> Option<(bool, int)> {
    if pat_at(s, i, "true"@) {
        Some((true, i + "true"@.len()))
    } else if pat_at(s, i, "false"@) {
        Some((false, i + "false"@.len()))
    } else {
        None
    }
}

/// One code-block option at position `p`: its parsed form and the position
/// just after its value, or the error the grammar assigns to it. An
/// unrecognized key is `UnknownOption`; a value of the wrong form (wrong
/// boolean token, bad identifier, empty or oversized `firstline` number) is
/// `MalformedOptionValue`.
pub open spec fn code_option_at(s: Seq<char>, p: int) -> Result<(CodeOptModel, int), ErrorModel> {
    if pat_at(s, p, "title="@) {
        let v0 = p + "title="@.len();
        let v1 = scan_title_end(s, v0);
        Ok((CodeOptModel::Title(s.subrange(v0, v1)), v1))
    } else if pat_at(s, p, "linenumbers="@) {
        let v0 = p + "linenumbers="@.len();
        match bool_at(s, v0) {
            Some((b, j)) => Ok((CodeOptModel::LineNumbers(b), j)),
            None => Err(ErrorModel { kind: TranspileErrorKind::MalformedOptionValue, at: v0 }),
        }
    } else if pat_at(s, p, "language="@) {
        let v0 = p + "language="@.len();
        if v0 < s.len() && ident_start_char(s[v0]) {
            let v1 = scan_ident_end(s, v0);
            Ok((CodeOptModel::Language(s.subrange(v0, v1)), v1))
        } else {
            Err(ErrorModel { kind: TranspileErrorKind::MalformedOptionValue, at: v0 })
        }
    } else if pat_at(s, p, "firstline="@) {
        let v0 = p + "firstline="@.len();
        let v1 = scan_digits_end(s, v0);
        if v1 == v0 || digits_val_range(s, v0, v1) > u64::MAX {
            Err(ErrorModel { kind: TranspileErrorKind::MalformedOptionValue, at: v0 })
        } else {
            Ok((CodeOptModel::FirstLine(digits_val_range(s, v0, v1)), v1))
        }
    } else if pat_at(s, p, "collapse="@) {
        let v0 = p + "collapse="@.len();
        match bool_at(s, v0) {
            Some((b, j)) => Ok((CodeOptModel::Collapse(b), j)),
            None => Err(ErrorModel { kind: TranspileErrorKind::MalformedOptionValue, at: v0 }),
        }
    } else {
        Err(ErrorModel { kind: TranspileErrorKind::UnknownOption, at: p })
    }
}

/// One admonition option at position `p`, in the same manner.
pub open spec fn adm_option_at(s: Seq<char>, p: int) -> Result<(AdmOptModel, int), ErrorModel> {
    if pat_at(s, p, "title="@) {
        let v0 = p + "title="@.len();
        let v1 = scan_title_end(s, v0);
        Ok((AdmOptModel::Title(s.subrange(v0, v1)), v1))
    } else if pat_at(s, p, "show_icon="@) {
        let v0 = p + "show_icon="@.len();
        match bool_at(s, v0) {
            Some((b, j)) => Ok((AdmOptModel::ShowIcon(b), j)),
            None => Err(ErrorModel { kind: TranspileErrorKind::MalformedOptionValue, at: v0 }),
        }
    } else {
        Err(ErrorModel { kind: TranspileErrorKind::UnknownOption, at: p })
    }
}

/// A non-empty `|`-separated option list starting at `p`, running through
/// the closing `}` (whitespace before the `}` is tolerated; each option key
/// follows its `:` or `|` immediately). Yields the options in declaration
/// order and the position just after the `}`. Running out of text before
/// the `}` is `UnterminatedBlock`, charged to the block's opening position;
/// stray text between an option's value and the `|` or `}` is
/// `MalformedOptionValue` at that text.
pub open spec fn code_opts_loop(s: Seq<char>, p: int, open_at: int) -> Result<
    (Seq<CodeOptModel>, int),
    ErrorModel,
>
    decreases s.len() - p,
{
    match code_option_at(s, p) {
        Err(e) => Err(e),
        Ok((opt, j)) => {
            if p < j && j < s.len() && s[j] == '|' {
                match code_opts_loop(s, j + 1, open_at) {
                    Err(e) => Err(e),
                    Ok((rest, q)) => Ok((seq![opt] + rest, q)),
                }
            } else {
                let j2 = skip_ws_from(s, j);
                if j2 < s.len() && s[j2] == '}' {
                    Ok((seq![opt], j2 + 1))
                } else if j2 >= s.len() {
                    Err(ErrorModel { kind: TranspileErrorKind::UnterminatedBlock, at: open_at })
                } else {
                    Err(ErrorModel { kind: TranspileErrorKind::MalformedOptionValue, at: j2 })
                }
            }
        },
    }
}

/// As `code_opts_loop`, for admonition options.
pub open spec fn adm_opts_loop(s: Seq<char>, p: int, open_at: int) -> Result<
    (Seq<AdmOptModel>, int),
    ErrorModel,
>
    decreases s.len() - p,
{
    match adm_option_at(s, p) {
        Err(e) => Err(e),
        Ok((opt, j)) => {
            if p < j && j < s.len() && s[j] == '|' {
                match adm_opts_loop(s, j + 1, open_at) {
                    Err(e) => Err(e),
                    Ok((rest, q)) => Ok((seq![opt] + rest, q)),
                }
            } else {
                let j2 = skip_ws_from(s, j);
                if j2 < s.len() && s[j2] == '}' {
                    Ok((seq![opt], j2 + 1))
                } else if j2 >= s.len() {
                    Err(ErrorModel { kind: TranspileErrorKind::UnterminatedBlock, at: open_at })
                } else {
                    Err(ErrorModel { kind: TranspileErrorKind::MalformedOptionValue, at: j2 })
                }
            }
        },
    }
}

/// The whole option tail after a `{code:`: either an empty list closed by a
/// (possibly whitespace-preceded) `}`, or a non-empty option list.
pub open spec fn code_option_list_at(s: Seq<char>, p: int, open_at: int) -> Result<
    (Seq<CodeOptModel>, int),
    ErrorModel,
> {
    let p2 = skip_ws_from(s, p);
    if p2 < s.len() && s[p2] == '}' {
        Ok((Seq::empty(), p2 + 1))
    } else {
        code_opts_loop(s, p, open_at)
    }
}

/// The whole option tail after a `{<kind>:`, in the same manner.
pub open spec fn adm_option_list_at(s: Seq<char>, p: int, open_at: int) -> Result<
    (Seq<AdmOptModel>, int),
    ErrorModel,
> {
    let p2 = skip_ws_from(s, p);
    if p2 < s.len() && s[p2] == '}' {
        Ok((Seq::empty(), p2 + 1))
    } else {
        adm_opts_loop(s, p, open_at)
    }
}

// ---------------------------------------------------------------------------
// First-match-wins folding of option lists
// ---------------------------------------------------------------------------

/// The `language` value projected into a code-block node: the first (in
/// declaration order) `language=` option, later ones ignored.
pub open spec fn first_language(opts: Seq<CodeOptModel>) -> Option<Seq<char>>
    decreases opts.len(),
{
    if opts.len() == 0 {
        None
    } else {
        match opts[0] {
            CodeOptModel::Language(l) => Some(l),
            _ => first_language(opts.drop_first()),
        }
    }
}

/// The `title` folded into an admonition node: first occurrence wins.
pub open spec fn first_adm_title(opts: Seq<AdmOptModel>) -> Option<Seq<char>>
    decreases opts.len(),
{
    if opts.len() == 0 {
        None
    } else {
        match opts[0] {
            AdmOptModel::Title(t) => Some(t),
            _ => first_adm_title(opts.drop_first()),
        }
    }
}

/// The first explicit `show_icon=` option, if any: first occurrence wins.
pub open spec fn first_show_icon_opt(opts: Seq<AdmOptModel>) -> Option<bool>
    decreases opts.len(),
{
    if opts.len() == 0 {
        None
    } else {
        match opts[0] {
            AdmOptModel::ShowIcon(b) => Some(b),
            _ => first_show_icon_opt(opts.drop_first()),
        }
    }
}

/// The `show_icon` flag folded into an admonition node: the first explicit
/// occurrence, or `true` when absent.
pub open spec fn first_show_icon(opts: Seq<AdmOptModel>) -> bool {
    match first_show_icon_opt(opts) {
        Some(b) => b,
        None => true,
    }
}

// ---------------------------------------------------------------------------
// Folding one option at a time
// ---------------------------------------------------------------------------

proof fn lemma_first_language_snoc(opts: Seq<CodeOptModel>, x: CodeOptModel)
    ensures
        first_language(opts.push(x)) == (if first_language(opts) is Some {
            first_language(opts)
        } else {
            match x {
                CodeOptModel::Language(l) => Some(l),
                _ => None::<Seq<char>>,
            }
        }),
    decreases opts.len(),
{
    if opts.len() == 0 {
        assert(opts.push(x)[0] == x);
        assert(opts.push(x).drop_first() =~= Seq::<CodeOptModel>::empty());
    } else {
        assert(opts.push(x)[0] == opts[0]);
        assert(opts.push(x).drop_first() =~= opts.drop_first().push(x));
        lemma_first_language_snoc(opts.drop_first(), x);
    }
}

proof fn lemma_first_adm_title_snoc(opts: Seq<AdmOptModel>, x: AdmOptModel)
    ensures
        first_adm_title(opts.push(x)) == (if first_adm_title(opts) is Some {
            first_adm_title(opts)
        } else {
            match x {
                AdmOptModel::Title(t) => Some(t),
                _ => None::<Seq<char>>,
            }
        }),
    decreases opts.len(),
{
    if opts.len() == 0 {
        assert(opts.push(x)[0] == x);
        assert(opts.push(x).drop_first() =~= Seq::<AdmOptModel>::empty());
    } else {
        assert(opts.push(x)[0] == opts[0]);
        assert(opts.push(x).drop_first() =~= opts.drop_first().push(x));
        lemma_first_adm_title_snoc(opts.drop_first(), x);
    }
}

proof fn lemma_first_show_icon_snoc(opts: Seq<AdmOptModel>, x: AdmOptModel)
    ensures
        first_show_icon_opt(opts.push(x)) == (if first_show_icon_opt(opts) is Some {
            first_show_icon_opt(opts)
        } else {
            match x {
                AdmOptModel::ShowIcon(b) => Some(b),
                _ => None::<bool>,
            }
        }),
    decreases opts.len(),
{
    if opts.len() == 0 {
        assert(opts.push(x)[0] == x);
        assert(opts.push(x).drop_first() =~= Seq::<AdmOptModel>::empty());
    } else {
        assert(opts.push(x)[0] == opts[0]);
        assert(opts.push(x).drop_first() =~= opts.drop_first().push(x));
        lemma_first_show_icon_snoc(opts.drop_first(), x);
    }
}

// ---------------------------------------------------------------------------
// Executable option parsing
// ---------------------------------------------------------------------------

/// Executable test for a character a `title=` value may contain.
fn is_title_value_char(c: char) -> (r: bool)
    ensures
        r == (c != '|' && c != '}'),
{
    c != '|' && c != '}'
}

/// Scans to the end of a `title=` value, computing `scan_title_end`.
fn scan_title(s: &str, i: usize) -> (j: usize)
    requires
        i <= s@.len(),
    ensures
        j as int == scan_title_end(s@, i as int),
        i <= j <= s@.len(),
{
    let n = s.unicode_len();
    let mut j = i;
    while j < n && is_title_value_char(s.get_char(j))
        invariant
            i <= j <= n,
            n == s@.len(),
            scan_title_end(s@, i as int) == scan_title_end(s@, j as int),
        decreases n - j,
    {
        j = j + 1;
    }
    j
}

/// Scans to the end of an identifier run, computing `scan_ident_end`.
fn scan_ident(s: &str, i: usize) -> (j: usize)
    requires
        i <= s@.len(),
    ensures
        j as int == scan_ident_end(s@, i as int),
        i <= j <= s@.len(),
{
    let n = s.unicode_len();
    let mut j = i;
    while j < n && is_ident_char(s.get_char(j))
        invariant
            i <= j <= n,
            n == s@.len(),
            scan_ident_end(s@, i as int) == scan_ident_end(s@, j as int),
        decreases n - j,
    {
        j = j + 1;
    }
    j
}

/// Scans to the end of a digit run, computing `scan_digits_end`.
pub(crate) fn scan_digits(s: &str, i: usize) -> (j: usize)
    requires
        i <= s@.len(),
    ensures
        j as int == scan_digits_end(s@, i as int),
        i <= j <= s@.len(),
{
    let n = s.unicode_len();
    let mut j = i;
    while j < n && is_digit_char(s.get_char(j))
        invariant
            i <= j <= n,
            n == s@.len(),
            scan_digits_end(s@, i as int) == scan_digits_end(s@, j as int),
        decreases n - j,
    {
        j = j + 1;
    }
    j
}

/// Steps back over trailing spaces and tabs, computing `scan_back_inline_ws`.
fn scan_back(s: &str, lo: usize, hi: usize) -> (e: usize)
    requires
        lo <= hi <= s@.len(),
    ensures
        e as int == scan_back_inline_ws(s@, lo as int, hi as int),
        lo <= e <= hi,
{
    let mut e = hi;
    while e > lo && is_inline_ws_char(s.get_char(e - 1))
        invariant
            lo <= e <= hi,
            hi <= s@.len(),
            scan_back_inline_ws(s@, lo as int, hi as int) == scan_back_inline_ws(
                s@,
                lo as int,
                e as int,
            ),
        decreases e,
    {
        e = e - 1;
    }
    e
}

/// Every character the digit scanner passed over is a digit.
pub(crate) proof fn lemma_scan_digits_chars(s: Seq<char>, i: int)
    ensures
        forall|k: int| i <= k < scan_digits_end(s, i) ==> digit_char(s[k]),
    decreases s.len() - i,
{
    if 0 <= i < s.len() && digit_char(s[i]) {
        lemma_scan_digits_chars(s, i + 1);
        assert forall|k: int| i <= k < scan_digits_end(s, i) implies digit_char(s[k]) by {
            if k != i {
                assert(i + 1 <= k < scan_digits_end(s, i + 1));
            }
        }
    }
}

/// A digit run's value is never negative.
proof fn lemma_digits_nonneg(s: Seq<char>, lo: int, hi: int)
    requires
        forall|k: int| lo <= k < hi ==> digit_char(s[k]),
    ensures
        digits_val_range(s, lo, hi) >= 0,
    decreases hi - lo,
{
    if lo < hi {
        lemma_digits_nonneg(s, lo, hi - 1);
    }
}

/// Extending a digit run to the right never shrinks its value.
proof fn lemma_digits_grow(s: Seq<char>, lo: int, a: int, b: int)
    requires
        a <= b,
        forall|k: int| lo <= k < b ==> digit_char(s[k]),
    ensures
        digits_val_range(s, lo, a) <= digits_val_range(s, lo, b),
    decreases b - a,
{
    if a < b {
        lemma_digits_grow(s, lo, a, b - 1);
        lemma_digits_nonneg(s, lo, b - 1);
    }
}

/// Reads the digit run `s[lo..hi]` as a 64-bit unsigned number, detecting
/// overflow exactly.
fn parse_u64_digits(s: &str, lo: usize, hi: usize) -> (r: Option<u64>)
    requires
        lo <= hi <= s@.len(),
        forall|k: int| lo <= k < hi ==> digit_char(s@[k]),
    ensures
        match r {
            Some(v) => digits_val_range(s@, lo as int, hi as int) == v as int,
            None => digits_val_range(s@, lo as int, hi as int) > u64::MAX,
        },
{
    let mut acc: u64 = 0;
    let mut k = lo;
    while k < hi
        invariant
            lo <= k <= hi,
            hi <= s@.len(),
            forall|x: int| lo <= x < hi ==> digit_char(s@[x]),
            acc as int == digits_val_range(s@, lo as int, k as int),
        decreases hi - k,
    {
        let c = s.get_char(k);
        assert(digit_char(s@[k as int]));
        let d = (c as u32 - 48) as u64;
        if acc > (u64::MAX - d) / 10 {
            proof {
                let m = (u64::MAX - d) as int;
                vstd::arithmetic::div_mod::lemma_fundamental_div_mod(m, 10);
                assert(acc as int * 10 + d as int > u64::MAX);
                lemma_digits_grow(s@, lo as int, k as int + 1, hi as int);
            }
            return None;
        }
        proof {
            let m = (u64::MAX - d) as int;
            vstd::arithmetic::div_mod::lemma_fundamental_div_mod(m, 10);
            assert(acc as int * 10 + d as int <= u64::MAX);
        }
        acc = acc * 10 + d;
        k = k + 1;
    }
    Some(acc)
}

/// Reads a `true`/`false` token, computing `bool_at`.
fn parse_bool(s: &str, i: usize) -> (r: Option<(bool, usize)>)
    ensures
        match r {
            Some((b, j)) => bool_at(s@, i as int) == Some((b, j as int)),
            None => bool_at(s@, i as int) is None,
        },
{
    let n = s.unicode_len();
    if matches_pat_at(s, i, "true") {
        Some((true, i + "true".unicode_len()))
    } else if matches_pat_at(s, i, "false") {
        Some((false, i + "false".unicode_len()))
    } else {
        None
    }
}

/// Parses one code-block option at `p`, computing `code_option_at`.
fn parse_code_option(s: &str, p: usize) -> (r: Result<(CodeBlockOption, usize), TranspileError>)
    ensures
        match r {
            Ok((opt, j)) => code_option_at(s@, p as int) matches Ok((om, jm)) && om == opt@ && jm
                == j as int,
            Err(e) => code_option_at(s@, p as int) matches Err(em) && em == e@,
        },
{
    let n = s.unicode_len();
    if matches_pat_at(s, p, "title=") {
        let v0 = p + "title=".unicode_len();
        let v1 = scan_title(s, v0);
        let t = String::from_str(s.substring_char(v0, v1));
        Ok((CodeBlockOption::Title(t), v1))
    } else if matches_pat_at(s, p, "linenumbers=") {
        let v0 = p + "linenumbers=".unicode_len();
        match parse_bool(s, v0) {
            Some((b, j)) => Ok((CodeBlockOption::LineNumbers(b), j)),
            None => Err(TranspileError { kind: TranspileErrorKind::MalformedOptionValue, at: v0 }),
        }
    } else if matches_pat_at(s, p, "language=") {
        let v0 = p + "language=".unicode_len();
        if v0 < n && is_ident_start_char(s.get_char(v0)) {
            let v1 = scan_ident(s, v0);
            let l = String::from_str(s.substring_char(v0, v1));
            Ok((CodeBlockOption::Language(l), v1))
        } else {
            Err(TranspileError { kind: TranspileErrorKind::MalformedOptionValue, at: v0 })
        }
    } else if matches_pat_at(s, p, "firstline=") {
        let v0 = p + "firstline=".unicode_len();
        let v1 = scan_digits(s, v0);
        proof {
            lemma_scan_digits_chars(s@, v0 as int);
        }
        if v1 == v0 {
            Err(TranspileError { kind: TranspileErrorKind::MalformedOptionValue, at: v0 })
        } else {
            match parse_u64_digits(s, v0, v1) {
                Some(v) => Ok((CodeBlockOption::FirstLine(v), v1)),
                None => Err(TranspileError {
                    kind: TranspileErrorKind::MalformedOptionValue,
                    at: v0,
                }),
            }
        }
    } else if matches_pat_at(s, p, "collapse=") {
        let v0 = p + "collapse=".unicode_len();
        match parse_bool(s, v0) {
            Some((b, j)) => Ok((CodeBlockOption::Collapse(b), j)),
            None => Err(TranspileError { kind: TranspileErrorKind::MalformedOptionValue, at: v0 }),
        }
    } else {
        Err(TranspileError { kind: TranspileErrorKind::UnknownOption, at: p })
    }
}

/// Parses one admonition option at `p`, computing `adm_option_at`.
fn parse_adm_option(s: &str, p: usize) -> (r: Result<(AdmotionOption, usize), TranspileError>)
    ensures
        match r {
            Ok((opt, j)) => adm_option_at(s@, p as int) matches Ok((om, jm)) && om == opt@ && jm
                == j as int,
            Err(e) => adm_option_at(s@, p as int) matches Err(em) && em == e@,
        },
{
    let n = s.unicode_len();
    if matches_pat_at(s, p, "title=") {
        let v0 = p + "title=".unicode_len();
        let v1 = scan_title(s, v0);
        let t = String::from_str(s.substring_char(v0, v1));
        Ok((AdmotionOption::Title(t), v1))
    } else if matches_pat_at(s, p, "show_icon=") {
        let v0 = p + "show_icon=".unicode_len();
        match parse_bool(s, v0) {
            Some((b, j)) => Ok((AdmotionOption::ShowIcon(b), j)),
            None => Err(TranspileError { kind: TranspileErrorKind::MalformedOptionValue, at: v0 }),
        }
    } else {
        Err(TranspileError { kind: TranspileErrorKind::UnknownOption, at: p })
    }
}

/// Parses the whole option tail after a `{code:` and folds it on the fly,
/// computing `code_option_list_at` and the first-match-wins `language`
/// projection.
fn parse_code_options(s: &str, p: usize, open_at: usize) -> (r: Result<
    (Option<String>, usize),
    TranspileError,
>)
    requires
        p <= s@.len(),
    ensures
        match r {
            Ok((lang, end)) => {
                &&& code_option_list_at(s@, p as int, open_at as int) matches Ok((opts, q)) && q
                    == end as int && first_language(opts) == (match lang {
                    Some(l) => Some(l@),
                    None => None::<Seq<char>>,
                })
                &&& p < end <= s@.len()
            },
            Err(e) => code_option_list_at(s@, p as int, open_at as int) matches Err(em) && em
                == e@,
        },
{
    let n = s.unicode_len();
    let p2 = skip_ws(s, p);
    if p2 < n && s.get_char(p2) == '}' {
        return Ok((None, p2 + 1));
    }
    let mut lang: Option<String> = None;
    let ghost mut acc: Seq<CodeOptModel> = Seq::empty();
    let mut cur = p;
    loop
        invariant
            p <= cur <= n,
            n == s@.len(),
            code_option_list_at(s@, p as int, open_at as int) == code_opts_loop(
                s@,
                p as int,
                open_at as int,
            ),
            code_opts_loop(s@, p as int, open_at as int) == (match code_opts_loop(
                s@,
                cur as int,
                open_at as int,
            ) {
                Ok((rest, q)) => Ok::<(Seq<CodeOptModel>, int), ErrorModel>((acc + rest, q)),
                Err(e) => Err::<(Seq<CodeOptModel>, int), ErrorModel>(e),
            }),
            first_language(acc) == (match lang {
                Some(l) => Some(l@),
                None => None::<Seq<char>>,
            }),
        decreases n - cur,
    {
        match parse_code_option(s, cur) {
            Err(e) => {
                return Err(e);
            },
            Ok((opt, j)) => {
                proof {
                    lemma_code_option_advances(s@, cur as int);
                }
                let ghost om = opt@;
                match &opt {
                    CodeBlockOption::Language(l) => {
                        if lang.is_none() {
                            lang = Some(l.clone());
                        }
                    },
                    _ => {},
                }
                proof {
                    lemma_first_language_snoc(acc, om);
                }
                if j < n && s.get_char(j) == '|' {
                    proof {
                        match code_opts_loop(s@, j as int + 1, open_at as int) {
                            Ok((rest2, q)) => {
                                assert(acc + (seq![om] + rest2) =~= acc.push(om) + rest2);
                            },
                            Err(_) => {},
                        }
                        acc = acc.push(om);
                    }
                    cur = j + 1;
                } else {
                    let j2 = skip_ws(s, j);
                    if j2 < n && s.get_char(j2) == '}' {
                        proof {
                            assert(acc + seq![om] =~= acc.push(om));
                            acc = acc.push(om);
                        }
                        return Ok((lang, j2 + 1));
                    } else if j2 >= n {
                        return Err(TranspileError {
                            kind: TranspileErrorKind::UnterminatedBlock,
                            at: open_at,
                        });
                    } else {
                        return Err(TranspileError {
                            kind: TranspileErrorKind::MalformedOptionValue,
                            at: j2,
                        });
                    }
                }
            },
        }
    }
}

/// Parses the whole option tail after a `{<kind>:` and folds it on the fly,
/// computing `adm_option_list_at`, the first `title=`, and the first
/// `show_icon=` (defaulting to true when absent).
fn parse_adm_options(s: &str, p: usize, open_at: usize) -> (r: Result<
    (Option<String>, bool, usize),
    TranspileError,
>)
    requires
        p <= s@.len(),
    ensures
        match r {
            Ok((title, show_icon, end)) => {
                &&& adm_option_list_at(s@, p as int, open_at as int) matches Ok((opts, q)) && q
                    == end as int && first_adm_title(opts) == (match title {
                    Some(t) => Some(t@),
                    None => None::<Seq<char>>,
                }) && first_show_icon(opts) == show_icon
                &&& p < end <= s@.len()
            },
            Err(e) => adm_option_list_at(s@, p as int, open_at as int) matches Err(em) && em
                == e@,
        },
{
    let n = s.unicode_len();
    let p2 = skip_ws(s, p);
    if p2 < n && s.get_char(p2) == '}' {
        return Ok((None, true, p2 + 1));
    }
    let mut title: Option<String> = None;
    let mut icon: Option<bool> = None;
    let ghost mut acc: Seq<AdmOptModel> = Seq::empty();
    let mut cur = p;
    loop
        invariant
            p <= cur <= n,
            n == s@.len(),
            adm_option_list_at(s@, p as int, open_at as int) == adm_opts_loop(
                s@,
                p as int,
                open_at as int,
            ),
            adm_opts_loop(s@, p as int, open_at as int) == (match adm_opts_loop(
                s@,
                cur as int,
                open_at as int,
            ) {
                Ok((rest, q)) => Ok::<(Seq<AdmOptModel>, int), ErrorModel>((acc + rest, q)),
                Err(e) => Err::<(Seq<AdmOptModel>, int), ErrorModel>(e),
            }),
            first_adm_title(acc) == (match title {
                Some(t) => Some(t@),
                None => None::<Seq<char>>,
            }),
            first_show_icon_opt(acc) == icon,
        decreases n - cur,
    {
        match parse_adm_option(s, cur) {
            Err(e) => {
                return Err(e);
            },
            Ok((opt, j)) => {
                proof {
                    lemma_adm_option_advances(s@, cur as int);
                }
                let ghost om = opt@;
                match &opt {
                    AdmotionOption::Title(t) => {
                        if title.is_none() {
                            title = Some(t.clone());
                        }
                    },
                    AdmotionOption::ShowIcon(b) => {
                        if icon.is_none() {
                            icon = Some(*b);
                        }
                    },
                }
                proof {
                    lemma_first_adm_title_snoc(acc, om);
                    lemma_first_show_icon_snoc(acc, om);
                }
                if j < n && s.get_char(j) == '|' {
                    proof {
                        match adm_opts_loop(s@, j as int + 1, open_at as int) {
                            Ok((rest2, q)) => {
                                assert(acc + (seq![om] + rest2) =~= acc.push(om) + rest2);
                            },
                            Err(_) => {},
                        }
                        acc = acc.push(om);
                    }
                    cur = j + 1;
                } else {
                    let j2 = skip_ws(s, j);
                    if j2 < n && s.get_char(j2) == '}' {
                        proof {
                            assert(acc + seq![om] =~= acc.push(om));
                            acc = acc.push(om);
                        }
                        let show_icon = match icon {
                            Some(b) => b,
                            None => true,
                        };
                        return Ok((title, show_icon, j2 + 1));
                    } else if j2 >= n {
                        return Err(TranspileError {
                            kind: TranspileErrorKind::UnterminatedBlock,
                            at: open_at,
                        });
                    } else {
                        return Err(TranspileError {
                            kind: TranspileErrorKind::MalformedOptionValue,
                            at: j2,
                        });
                    }
                }
            },
        }
    }
}

// ---------------------------------------------------------------------------
// Block grammars (spec): each consumes one whole construct or misses/fails
// ---------------------------------------------------------------------------

/// Position of the first occurrence of the character `c` at or after `i`.
pub open spec fn find_char_from(s: Seq<char>, i: int, c: char) -> Option<int>
    decreases s.len() - i,
{
    if i < 0 || i >= s.len() {
        None
    } else if s[i] == c {
        Some(i)
    } else {
        find_char_from(s, i + 1, c)
    }
}

proof fn lemma_find_char_bounds(s: Seq<char>, i: int, c: char, j: int)
    requires
        find_char_from(s, i, c) == Some(j),
    ensures
        i <= j < s.len(),
        s[j] == c,
    decreases s.len() - i,
{
    if !(i < 0 || i >= s.len()) && s[i] != c {
        lemma_find_char_bounds(s, i + 1, c, j);
    }
}

/// What one attempt of a block grammar at a position comes to: the construct
/// does not begin here (`Miss`, nothing consumed), it begins but is faulty
/// (`Fail`, the whole transpile call fails), or it is recognized whole
/// (`Hit`, with the position just after it).
pub ghost enum GrammarOutcome {
    Miss,
    Fail { err: ErrorModel },
    Hit { node: NodeModel, next: int },
}

/// The heading grammar at position `i`: `h`, one digit in 1..6, `.`, any
/// spaces and tabs, then the rest of the line up to and consuming its line
/// terminator. A digit outside 1..6, a missing dot, or a line without a
/// terminator is a miss, never an error.
pub open spec fn heading_at(s: Seq<char>, i: int) -> GrammarOutcome {
    if 0 <= i && i + 3 <= s.len() && s[i] == 'h' && digit_char(s[i + 1]) && s[i + 2] == '.' {
        if 1 <= digit_val(s[i + 1]) <= 6 {
            let t0 = skip_inline_ws_from(s, i + 3);
            match find_char_from(s, t0, '\n') {
                Some(j) => GrammarOutcome::Hit {
                    node: NodeModel::Heading { level: digit_val(s[i + 1]), text: s.subrange(t0, j) },
                    next: j + 1,
                },
                None => GrammarOutcome::Miss,
            }
        } else {
            GrammarOutcome::Miss
        }
    } else {
        GrammarOutcome::Miss
    }
}

/// The body and close of a code block, from position `p` just after the
/// opening tag's `}`: whitespace after the `}` is skipped, the content runs
/// to the next literal `{code}` (minus a trailing run of spaces or tabs,
/// which belongs to the close tag's surrounding whitespace), and whitespace
/// after the close tag is consumed too. No close tag before the end of the
/// text is `UnterminatedBlock`, charged to the block's opening position.
pub open spec fn code_body_at(
    s: Seq<char>,
    p: int,
    open_at: int,
    language: Option<Seq<char>>,
) -> GrammarOutcome {
    let c0 = skip_ws_from(s, p);
    match find_pat_from(s, c0, "{code}"@) {
        None => GrammarOutcome::Fail {
            err: ErrorModel { kind: TranspileErrorKind::UnterminatedBlock, at: open_at },
        },
        Some(m) => GrammarOutcome::Hit {
            node: NodeModel::CodeBlock {
                language,
                content: s.subrange(c0, scan_back_inline_ws(s, c0, m)),
            },
            next: skip_ws_from(s, m + "{code}"@.len()),
        },
    }
}

/// The code-block grammar at position `i`: `{code`, an optional `:` with an
/// option list, a whitespace-tolerant `}`, then the body. Only the first
/// `language=` option is projected into the node. Without the `:`, a missing
/// `}` is a miss (the construct never began); after the `:` the grammar is
/// committed and faults are errors.
pub open spec fn code_block_at(s: Seq<char>, i: int) -> GrammarOutcome {
    if !pat_at(s, i, "{code"@) {
        GrammarOutcome::Miss
    } else {
        let j = i + "{code"@.len();
        if j < s.len() && s[j] == ':' {
            match code_option_list_at(s, j + 1, i) {
                Err(e) => GrammarOutcome::Fail { err: e },
                Ok((opts, q)) => code_body_at(s, q, i, first_language(opts)),
            }
        } else {
            let k = skip_ws_from(s, j);
            if k < s.len() && s[k] == '}' {
                code_body_at(s, k + 1, i, None)
            } else {
                GrammarOutcome::Miss
            }
        }
    }
}

/// The opening tag prefix of an admonition kind.
pub open spec fn kind_open_tag(kind: AdmotionKind) -> Seq<char> {
    match kind {
        AdmotionKind::Info => "{info"@,
        AdmotionKind::Tip => "{tip"@,
        AdmotionKind::Warning => "{warning"@,
        AdmotionKind::Note => "{note"@,
    }
}

/// The closing tag of an admonition kind (no options are permitted on it).
pub open spec fn kind_close_tag(kind: AdmotionKind) -> Seq<char> {
    match kind {
        AdmotionKind::Info => "{info}"@,
        AdmotionKind::Tip => "{tip}"@,
        AdmotionKind::Warning => "{warning}"@,
        AdmotionKind::Note => "{note}"@,
    }
}

/// The body and close of an admonition, from position `p` just after the
/// opening tag's `}`, in the same manner as a code block's body.
pub open spec fn adm_body_at(
    s: Seq<char>,
    p: int,
    open_at: int,
    kind: AdmotionKind,
    title: Option<Seq<char>>,
    show_icon: bool,
) -> GrammarOutcome {
    let c0 = skip_ws_from(s, p);
    match find_pat_from(s, c0, kind_close_tag(kind)) {
        None => GrammarOutcome::Fail {
            err: ErrorModel { kind: TranspileErrorKind::UnterminatedBlock, at: open_at },
        },
        Some(m) => GrammarOutcome::Hit {
            node: NodeModel::Admotion {
                kind,
                title,
                show_icon,
                content: s.subrange(c0, scan_back_inline_ws(s, c0, m)),
            },
            next: skip_ws_from(s, m + kind_close_tag(kind).len()),
        },
    }
}

/// The admonition grammar for one kind at position `i`: `{` plus the kind's
/// keyword, an optional `:` with an option list (`title=`, `show_icon=`), a
/// whitespace-tolerant `}`, then the body. The first `title=` and the first
/// `show_icon=` are folded into the node; `show_icon` defaults to true.
pub open spec fn admotion_at(s: Seq<char>, i: int, kind: AdmotionKind) -> GrammarOutcome {
    if !pat_at(s, i, kind_open_tag(kind)) {
        GrammarOutcome::Miss
    } else {
        let j = i + kind_open_tag(kind).len();
        if j < s.len() && s[j] == ':' {
            match adm_option_list_at(s, j + 1, i) {
                Err(e) => GrammarOutcome::Fail { err: e },
                Ok((opts, q)) => adm_body_at(
                    s,
                    q,
                    i,
                    kind,
                    first_adm_title(opts),
                    first_show_icon(opts),
                ),
            }
        } else {
            let k = skip_ws_from(s, j);
            if k < s.len() && s[k] == '}' {
                adm_body_at(s, k + 1, i, kind, None, true)
            } else {
                GrammarOutcome::Miss
            }
        }
    }
}

/// The fallback: one line of plain text, up to and consuming its terminator,
/// or to the end of the text. Always a hit.
pub open spec fn plain_line_at(s: Seq<char>, i: int) -> GrammarOutcome {
    match find_char_from(s, i, '\n') {
        Some(j) => GrammarOutcome::Hit {
            node: NodeModel::PlainText { text: s.subrange(i, j) },
            next: j + 1,
        },
        None => GrammarOutcome::Hit {
            node: NodeModel::PlainText { text: s.subrange(i, s.len() as int) },
            next: s.len() as int,
        },
    }
}

/// The block grammars tried at position `i`, in the fixed priority order
/// heading, code block, info, tip, warning, note: the first that does not
/// miss decides. A miss here means no recognized construct begins at `i`.
pub open spec fn block_step_at(s: Seq<char>, i: int) -> GrammarOutcome {
    if !(heading_at(s, i) is Miss) {
        heading_at(s, i)
    } else if !(code_block_at(s, i) is Miss) {
        code_block_at(s, i)
    } else if !(admotion_at(s, i, AdmotionKind::Info) is Miss) {
        admotion_at(s, i, AdmotionKind::Info)
    } else if !(admotion_at(s, i, AdmotionKind::Tip) is Miss) {
        admotion_at(s, i, AdmotionKind::Tip)
    } else if !(admotion_at(s, i, AdmotionKind::Warning) is Miss) {
        admotion_at(s, i, AdmotionKind::Warning)
    } else if !(admotion_at(s, i, AdmotionKind::Note) is Miss) {
        admotion_at(s, i, AdmotionKind::Note)
    } else {
        GrammarOutcome::Miss
    }
}

/// One step of the driver at position `i`: the block grammars in priority
/// order, falling back to one line of plain text. Never a miss.
pub open spec fn step_at(s: Seq<char>, i: int) -> GrammarOutcome {
    if !(block_step_at(s, i) is Miss) {
        block_step_at(s, i)
    } else {
        plain_line_at(s, i)
    }
}

/// The node sequence of the document from position `i` on: repeated driver
/// steps until the end of the text, or the first error. (The two `Ok` arms
/// under a miss or a non-advancing hit never arise: `lemma_step_advances`.)
pub open spec fn parse_from(s: Seq<char>, i: int) -> Result<Seq<NodeModel>, ErrorModel>
    decreases s.len() - i,
{
    if !(0 <= i < s.len()) {
        Ok(Seq::empty())
    } else {
        match step_at(s, i) {
            GrammarOutcome::Miss => Ok(Seq::empty()),
            GrammarOutcome::Fail { err } => Err(err),
            GrammarOutcome::Hit { node, next } => {
                if i < next <= s.len() {
                    match parse_from(s, next) {
                        Err(e) => Err(e),
                        Ok(rest) => Ok(seq![node] + rest),
                    }
                } else {
                    Ok(seq![node])
                }
            },
        }
    }
}

// ---------------------------------------------------------------------------
// Executable block parsers
// ---------------------------------------------------------------------------

/// Finds the first occurrence of the character `c` at or after `from`,
/// computing `find_char_from`.
fn find_char(s: &str, from: usize, c: char) -> (r: Option<usize>)
    ensures
        match r {
            Some(j) => find_char_from(s@, from as int, c) == Some(j as int),
            None => find_char_from(s@, from as int, c) is None,
        },
{
    let n = s.unicode_len();
    let mut j = from;
    while j < n
        invariant
            from <= j,
            n == s@.len(),
            find_char_from(s@, from as int, c) == find_char_from(s@, j as int, c),
        decreases n - j,
    {
        if s.get_char(j) == c {
            return Some(j);
        }
        j = j + 1;
    }
    None
}

/// The view of an optional owned text.
pub open spec fn opt_text_view(o: Option<String>) -> Option<Seq<char>> {
    match o {
        Some(x) => Some(x@),
        None => None,
    }
}

/// An executable block parser's result agrees with the grammar's outcome at
/// that position: `Ok(None)` for a miss, `Ok(Some..)` with the node and the
/// position after the construct for a hit, `Err` for a fault.
pub open spec fn outcome_reflects(
    g: GrammarOutcome,
    r: Result<Option<(MarkUpNode, usize)>, TranspileError>,
) -> bool {
    match g {
        GrammarOutcome::Miss => r matches Ok(o) && o is None,
        GrammarOutcome::Fail { err } => r matches Err(e) && e@ == err,
        GrammarOutcome::Hit { node, next } => r matches Ok(o) && o matches Some((nd, nx)) && nd@
            == node && nx as int == next,
    }
}

/// Tries the heading grammar at `at`; consumes nothing on a miss. Headings
/// never fault.
pub fn parse_heading(markup: &str, at: usize) -> (r: Option<(MarkUpNode, usize)>)
    ensures
        match r {
            Some((node, next)) => heading_at(markup@, at as int) matches GrammarOutcome::Hit {
                node: nm,
                next: nx,
            } && node@ == nm && next as int == nx,
            None => heading_at(markup@, at as int) is Miss,
        },
{
    let n = markup.unicode_len();
    if n < 3 || at > n - 3 {
        return None;
    }
    if markup.get_char(at) != 'h' {
        return None;
    }
    let c1 = markup.get_char(at + 1);
    if !is_digit_char(c1) {
        return None;
    }
    if markup.get_char(at + 2) != '.' {
        return None;
    }
    let level = c1 as u32 - 48;
    if !(1 <= level && level <= 6) {
        return None;
    }
    let t0 = skip_inline_ws(markup, at + 3);
    match find_char(markup, t0, '\n') {
        Some(j) => {
            proof {
                lemma_find_char_bounds(markup@, t0 as int, '\n', j as int);
            }
            let text = String::from_str(markup.substring_char(t0, j));
            Some((MarkUpNode::Heading { level, text }, j + 1))
        },
        None => None,
    }
}

/// Parses a code block's body and close tag from `p` (just after the opening
/// tag's `}`), computing `code_body_at`.
fn parse_code_body(markup: &str, p: usize, open_at: usize, language: Option<String>) -> (r: Result<
    Option<(MarkUpNode, usize)>,
    TranspileError,
>)
    requires
        p <= markup@.len(),
    ensures
        outcome_reflects(
            code_body_at(markup@, p as int, open_at as int, opt_text_view(language)),
            r,
        ),
{
    let n = markup.unicode_len();
    let c0 = skip_ws(markup, p);
    match find_pat(markup, c0, "{code}") {
        None => Err(TranspileError { kind: TranspileErrorKind::UnterminatedBlock, at: open_at }),
        Some(m) => {
            proof {
                lemma_find_pat_bounds(markup@, c0 as int, "{code}"@, m as int);
            }
            let e = scan_back(markup, c0, m);
            let content = String::from_str(markup.substring_char(c0, e));
            let next = skip_ws(markup, m + "{code}".unicode_len());
            Ok(Some((MarkUpNode::CodeBlock { language, content }, next)))
        },
    }
}

/// Tries the code-block grammar at `at`; consumes nothing on a miss,
/// computing `code_block_at`.
pub fn parse_code_block(markup: &str, at: usize) -> (r: Result<
    Option<(MarkUpNode, usize)>,
    TranspileError,
>)
    ensures
        outcome_reflects(code_block_at(markup@, at as int), r),
{
    let n = markup.unicode_len();
    if !matches_pat_at(markup, at, "{code") {
        return Ok(None);
    }
    let j = at + "{code".unicode_len();
    if j < n && markup.get_char(j) == ':' {
        match parse_code_options(markup, j + 1, at) {
            Err(e) => Err(e),
            Ok((lang, q)) => parse_code_body(markup, q, at, lang),
        }
    } else {
        let k = skip_ws(markup, j);
        if k < n && markup.get_char(k) == '}' {
            parse_code_body(markup, k + 1, at, None)
        } else {
            Ok(None)
        }
    }
}

/// The opening tag prefix of an admonition kind, as text.
fn open_tag(kind: AdmotionKind) -> (r: &'static str)
    ensures
        r@ == kind_open_tag(kind),
{
    match kind {
        AdmotionKind::Info => "{info",
        AdmotionKind::Tip => "{tip",
        AdmotionKind::Warning => "{warning",
        AdmotionKind::Note => "{note",
    }
}

/// The closing tag of an admonition kind, as text.
fn close_tag(kind: AdmotionKind) -> (r: &'static str)
    ensures
        r@ == kind_close_tag(kind),
{
    match kind {
        AdmotionKind::Info => "{info}",
        AdmotionKind::Tip => "{tip}",
        AdmotionKind::Warning => "{warning}",
        AdmotionKind::Note => "{note}",
    }
}

/// Parses an admonition's body and close tag from `p` (just after the
/// opening tag's `}`), computing `adm_body_at`.
fn parse_adm_body(
    markup: &str,
    p: usize,
    open_at: usize,
    kind: AdmotionKind,
    title: Option<String>,
    show_icon: bool,
) -> (r: Result<Option<(MarkUpNode, usize)>, TranspileError>)
    requires
        p <= markup@.len(),
    ensures
        outcome_reflects(
            adm_body_at(markup@, p as int, open_at as int, kind, opt_text_view(title), show_icon),
            r,
        ),
{
    let n = markup.unicode_len();
    let c0 = skip_ws(markup, p);
    let close = close_tag(kind);
    match find_pat(markup, c0, close) {
        None => Err(TranspileError { kind: TranspileErrorKind::UnterminatedBlock, at: open_at }),
        Some(m) => {
            proof {
                lemma_find_pat_bounds(markup@, c0 as int, close@, m as int);
            }
            let e = scan_back(markup, c0, m);
            let content = String::from_str(markup.substring_char(c0, e));
            let next = skip_ws(markup, m + close.unicode_len());
            Ok(Some((MarkUpNode::Admotion { kind, title, show_icon, content }, next)))
        },
    }
}

/// Tries the admonition grammar for one kind at `at`; consumes nothing on a
/// miss, computing `admotion_at`.
pub fn parse_admotion(markup: &str, at: usize, kind: AdmotionKind) -> (r: Result<
    Option<(MarkUpNode, usize)>,
    TranspileError,
>)
    ensures
        outcome_reflects(admotion_at(markup@, at as int, kind), r),
{
    let n = markup.unicode_len();
    let open = open_tag(kind);
    if !matches_pat_at(markup, at, open) {
        return Ok(None);
    }
    let j = at + open.unicode_len();
    if j < n && markup.get_char(j) == ':' {
        match parse_adm_options(markup, j + 1, at) {
            Err(e) => Err(e),
            Ok((title, show_icon, q)) => parse_adm_body(markup, q, at, kind, title, show_icon),
        }
    } else {
        let k = skip_ws(markup, j);
        if k < n && markup.get_char(k) == '}' {
            parse_adm_body(markup, k + 1, at, kind, None, true)
        } else {
            Ok(None)
        }
    }
}

// ---------------------------------------------------------------------------
// Every hit consumes input: the driver's progress argument
// ---------------------------------------------------------------------------

proof fn lemma_bool_at_bounds(s: Seq<char>, i: int)
    requires
        bool_at(s, i) is Some,
    ensures
        i < (bool_at(s, i)->0).1 <= s.len(),
{
    reveal_strlit("true");
    reveal_strlit("false");
}

proof fn lemma_code_option_advances(s: Seq<char>, p: int)
    requires
        code_option_at(s, p) is Ok,
    ensures
        0 <= p,
        p < code_option_at(s, p)->Ok_0.1 <= s.len(),
{
    reveal_strlit("title=");
    reveal_strlit("linenumbers=");
    reveal_strlit("language=");
    reveal_strlit("firstline=");
    reveal_strlit("collapse=");
    if pat_at(s, p, "title="@) {
        lemma_scan_title_bounds(s, p + 6);
    } else if pat_at(s, p, "linenumbers="@) {
        if bool_at(s, p + 12) is Some {
            lemma_bool_at_bounds(s, p + 12);
        }
    } else if pat_at(s, p, "language="@) {
        if p + 9 < s.len() && ident_start_char(s[p + 9]) {
            lemma_scan_ident_bounds(s, p + 9);
        }
    } else if pat_at(s, p, "firstline="@) {
        lemma_scan_digits_bounds(s, p + 10);
    } else if pat_at(s, p, "collapse="@) {
        if bool_at(s, p + 9) is Some {
            lemma_bool_at_bounds(s, p + 9);
        }
    }
}

proof fn lemma_adm_option_advances(s: Seq<char>, p: int)
    requires
        adm_option_at(s, p) is Ok,
    ensures
        0 <= p,
        p < adm_option_at(s, p)->Ok_0.1 <= s.len(),
{
    reveal_strlit("title=");
    reveal_strlit("show_icon=");
    if pat_at(s, p, "title="@) {
        lemma_scan_title_bounds(s, p + 6);
    } else if pat_at(s, p, "show_icon="@) {
        if bool_at(s, p + 10) is Some {
            lemma_bool_at_bounds(s, p + 10);
        }
    }
}

proof fn lemma_code_opts_loop_advances(s: Seq<char>, p: int, open_at: int)
    requires
        code_opts_loop(s, p, open_at) is Ok,
    ensures
        p < code_opts_loop(s, p, open_at)->Ok_0.1 <= s.len(),
    decreases s.len() - p,
{
    match code_option_at(s, p) {
        Err(_) => {},
        Ok((opt, j)) => {
            lemma_code_option_advances(s, p);
            if p < j && j < s.len() && s[j] == '|' {
                lemma_code_opts_loop_advances(s, j + 1, open_at);
            } else {
                lemma_skip_ws_bounds(s, j);
            }
        },
    }
}

proof fn lemma_adm_opts_loop_advances(s: Seq<char>, p: int, open_at: int)
    requires
        adm_opts_loop(s, p, open_at) is Ok,
    ensures
        p < adm_opts_loop(s, p, open_at)->Ok_0.1 <= s.len(),
    decreases s.len() - p,
{
    match adm_option_at(s, p) {
        Err(_) => {},
        Ok((opt, j)) => {
            lemma_adm_option_advances(s, p);
            if p < j && j < s.len() && s[j] == '|' {
                lemma_adm_opts_loop_advances(s, j + 1, open_at);
            } else {
                lemma_skip_ws_bounds(s, j);
            }
        },
    }
}

proof fn lemma_code_option_list_advances(s: Seq<char>, p: int, open_at: int)
    requires
        0 <= p <= s.len(),
        code_option_list_at(s, p, open_at) is Ok,
    ensures
        p < code_option_list_at(s, p, open_at)->Ok_0.1 <= s.len(),
{
    lemma_skip_ws_bounds(s, p);
    let p2 = skip_ws_from(s, p);
    if !(p2 < s.len() && s[p2] == '}') {
        lemma_code_opts_loop_advances(s, p, open_at);
    }
}

proof fn lemma_adm_option_list_advances(s: Seq<char>, p: int, open_at: int)
    requires
        0 <= p <= s.len(),
        adm_option_list_at(s, p, open_at) is Ok,
    ensures
        p < adm_option_list_at(s, p, open_at)->Ok_0.1 <= s.len(),
{
    lemma_skip_ws_bounds(s, p);
    let p2 = skip_ws_from(s, p);
    if !(p2 < s.len() && s[p2] == '}') {
        lemma_adm_opts_loop_advances(s, p, open_at);
    }
}

proof fn lemma_heading_advances(s: Seq<char>, i: int)
    requires
        heading_at(s, i) is Hit,
    ensures
        i < heading_at(s, i)->next <= s.len(),
{
    lemma_skip_inline_ws_bounds(s, i + 3);
    let t0 = skip_inline_ws_from(s, i + 3);
    match find_char_from(s, t0, '\n') {
        Some(j) => lemma_find_char_bounds(s, t0, '\n', j),
        None => {},
    }
}

proof fn lemma_code_body_advances(s: Seq<char>, p: int, open_at: int, language: Option<Seq<char>>)
    requires
        0 <= p <= s.len(),
        code_body_at(s, p, open_at, language) is Hit,
    ensures
        p < code_body_at(s, p, open_at, language)->next <= s.len(),
{
    reveal_strlit("{code}");
    lemma_skip_ws_bounds(s, p);
    let c0 = skip_ws_from(s, p);
    match find_pat_from(s, c0, "{code}"@) {
        None => {},
        Some(m) => {
            lemma_find_pat_bounds(s, c0, "{code}"@, m);
            lemma_skip_ws_bounds(s, m + 6);
        },
    }
}

proof fn lemma_code_block_advances(s: Seq<char>, i: int)
    requires
        code_block_at(s, i) is Hit,
    ensures
        i < code_block_at(s, i)->next <= s.len(),
{
    reveal_strlit("{code");
    if pat_at(s, i, "{code"@) {
        let j = i + 5;
        if j < s.len() && s[j] == ':' {
            match code_option_list_at(s, j + 1, i) {
                Err(_) => {},
                Ok((opts, q)) => {
                    lemma_code_option_list_advances(s, j + 1, i);
                    lemma_code_body_advances(s, q, i, first_language(opts));
                },
            }
        } else {
            lemma_skip_ws_bounds(s, j);
            let k = skip_ws_from(s, j);
            if k < s.len() && s[k] == '}' {
                lemma_code_body_advances(s, k + 1, i, None);
            }
        }
    }
}

proof fn lemma_close_tag_len(kind: AdmotionKind)
    ensures
        1 <= kind_close_tag(kind).len(),
        1 <= kind_open_tag(kind).len(),
{
    reveal_strlit("{info}");
    reveal_strlit("{tip}");
    reveal_strlit("{warning}");
    reveal_strlit("{note}");
    reveal_strlit("{info");
    reveal_strlit("{tip");
    reveal_strlit("{warning");
    reveal_strlit("{note");
}

proof fn lemma_adm_body_advances(
    s: Seq<char>,
    p: int,
    open_at: int,
    kind: AdmotionKind,
    title: Option<Seq<char>>,
    show_icon: bool,
)
    requires
        0 <= p <= s.len(),
        adm_body_at(s, p, open_at, kind, title, show_icon) is Hit,
    ensures
        p < adm_body_at(s, p, open_at, kind, title, show_icon)->next <= s.len(),
{
    lemma_close_tag_len(kind);
    lemma_skip_ws_bounds(s, p);
    let c0 = skip_ws_from(s, p);
    match find_pat_from(s, c0, kind_close_tag(kind)) {
        None => {},
        Some(m) => {
            lemma_find_pat_bounds(s, c0, kind_close_tag(kind), m);
            lemma_skip_ws_bounds(s, m + kind_close_tag(kind).len() as int);
        },
    }
}

proof fn lemma_admotion_advances(s: Seq<char>, i: int, kind: AdmotionKind)
    requires
        admotion_at(s, i, kind) is Hit,
    ensures
        i < admotion_at(s, i, kind)->next <= s.len(),
{
    lemma_close_tag_len(kind);
    if pat_at(s, i, kind_open_tag(kind)) {
        let j = i + kind_open_tag(kind).len() as int;
        if j < s.len() && s[j] == ':' {
            match adm_option_list_at(s, j + 1, i) {
                Err(_) => {},
                Ok((opts, q)) => {
                    lemma_adm_option_list_advances(s, j + 1, i);
                    lemma_adm_body_advances(
                        s,
                        q,
                        i,
                        kind,
                        first_adm_title(opts),
                        first_show_icon(opts),
                    );
                },
            }
        } else {
            lemma_skip_ws_bounds(s, j);
            let k = skip_ws_from(s, j);
            if k < s.len() && s[k] == '}' {
                lemma_adm_body_advances(s, k + 1, i, kind, None, true);
            }
        }
    }
}

proof fn lemma_plain_advances(s: Seq<char>, i: int)
    requires
        0 <= i < s.len(),
    ensures
        plain_line_at(s, i) is Hit,
        i < plain_line_at(s, i)->next <= s.len(),
{
    match find_char_from(s, i, '\n') {
        Some(j) => lemma_find_char_bounds(s, i, '\n', j),
        None => {},
    }
}

/// At any position inside the text the driver either hits (and moves
/// strictly forward, never past the end) or fails: it never stalls.
proof fn lemma_step_advances(s: Seq<char>, i: int)
    requires
        0 <= i < s.len(),
    ensures
        !(step_at(s, i) is Miss),
        step_at(s, i) is Hit ==> i < step_at(s, i)->next <= s.len(),
{
    if !(heading_at(s, i) is Miss) {
        if heading_at(s, i) is Hit {
            lemma_heading_advances(s, i);
        }
    } else if !(code_block_at(s, i) is Miss) {
        if code_block_at(s, i) is Hit {
            lemma_code_block_advances(s, i);
        }
    } else if !(admotion_at(s, i, AdmotionKind::Info) is Miss) {
        if admotion_at(s, i, AdmotionKind::Info) is Hit {
            lemma_admotion_advances(s, i, AdmotionKind::Info);
        }
    } else if !(admotion_at(s, i, AdmotionKind::Tip) is Miss) {
        if admotion_at(s, i, AdmotionKind::Tip) is Hit {
            lemma_admotion_advances(s, i, AdmotionKind::Tip);
        }
    } else if !(admotion_at(s, i, AdmotionKind::Warning) is Miss) {
        if admotion_at(s, i, AdmotionKind::Warning) is Hit {
            lemma_admotion_advances(s, i, AdmotionKind::Warning);
        }
    } else if !(admotion_at(s, i, AdmotionKind::Note) is Miss) {
        if admotion_at(s, i, AdmotionKind::Note) is Hit {
            lemma_admotion_advances(s, i, AdmotionKind::Note);
        }
    } else {
        lemma_plain_advances(s, i);
    }
}

// ---------------------------------------------------------------------------
// Rendering (spec)
// ---------------------------------------------------------------------------

/// `level` hash marks.
pub open spec fn hash_marks(level: int) -> Seq<char>
    decreases level,
{
    if level <= 0 {
        Seq::empty()
    } else {
        hash_marks(level - 1).push('#')
    }
}

/// The callout marker line of an admonition kind.
pub open spec fn kind_marker(kind: AdmotionKind) -> Seq<char> {
    match kind {
        AdmotionKind::Info => "> [!INFO]"@,
        AdmotionKind::Tip => "> [!TIP]"@,
        AdmotionKind::Warning => "> [!WARNING]"@,
        AdmotionKind::Note => "> [!NOTE]"@,
    }
}

/// One node's own Markdown text, without the uniform trailing newline.
/// An admonition renders its marker, bolded title (if any) and content in
/// immediate concatenation, with no separating whitespace — deliberately:
/// callers depend on the exact output, so nothing here prettifies it.
/// `show_icon` has no effect on rendering.
pub open spec fn render_node(n: NodeModel) -> Seq<char> {
    match n {
        NodeModel::PlainText { text } => text,
        NodeModel::Heading { level, text } => hash_marks(level) + " "@ + text,
        NodeModel::CodeBlock { language, content } => "```"@ + (match language {
            Some(l) => l,
            None => Seq::empty(),
        }) + "\n"@ + content + "```"@,
        NodeModel::Admotion { kind, title, show_icon, content } => kind_marker(kind) + (match title {
            Some(t) => "**"@ + t + "**"@,
            None => Seq::empty(),
        }) + content,
    }
}

/// One node's Markdown text: its own render plus the exactly one newline the
/// per-node wrapper appends, uniformly for every node.
pub open spec fn render(n: NodeModel) -> Seq<char> {
    render_node(n) + "\n"@
}

/// The whole document's Markdown: the ordered concatenation of each node's
/// render, with nothing inserted between them.
pub open spec fn render_doc(nodes: Seq<NodeModel>) -> Seq<char>
    decreases nodes.len(),
{
    if nodes.len() == 0 {
        Seq::empty()
    } else {
        render(nodes[0]) + render_doc(nodes.drop_first())
    }
}

/// The whole transpiler: parse from the start, then render, or the first
/// error.
pub open spec fn transpile_model(s: Seq<char>) -> Result<Seq<char>, ErrorModel> {
    match parse_from(s, 0) {
        Err(e) => Err(e),
        Ok(nodes) => Ok(render_doc(nodes)),
    }
}

/// The node models of a sequence of nodes.
pub open spec fn view_nodes(nodes: Seq<MarkUpNode>) -> Seq<NodeModel> {
    nodes.map_values(|n: MarkUpNode| n@)
}

/// Rendering one more node appends exactly that node's render.
proof fn lemma_render_doc_snoc(nodes: Seq<NodeModel>, x: NodeModel)
    ensures
        render_doc(nodes.push(x)) == render_doc(nodes) + render(x),
    decreases nodes.len(),
{
    reveal_with_fuel(render_doc, 3);
    if nodes.len() == 0 {
        assert(nodes.push(x)[0] == x);
        assert(nodes.push(x).drop_first() =~= Seq::<NodeModel>::empty());
        assert(render_doc(nodes.push(x).drop_first()) =~= Seq::<char>::empty());
        assert(render(x) + Seq::<char>::empty() =~= render(x));
        assert(Seq::<char>::empty() + render(x) =~= render(x));
        assert(render_doc(nodes.push(x)) =~= render_doc(nodes) + render(x));
    } else {
        assert(nodes.push(x)[0] == nodes[0]);
        assert(nodes.push(x).drop_first() =~= nodes.drop_first().push(x));
        lemma_render_doc_snoc(nodes.drop_first(), x);
        assert(render(nodes[0]) + (render_doc(nodes.drop_first()) + render(x)) =~= (render(
            nodes[0],
        ) + render_doc(nodes.drop_first())) + render(x));
        assert(render_doc(nodes.push(x)) =~= render_doc(nodes) + render(x));
    }
}

// ---------------------------------------------------------------------------
// Executable driver and renderer
// ---------------------------------------------------------------------------

/// Tries the block grammars at `at` in priority order, computing
/// `block_step_at`; `Ok(None)` when no recognized construct begins here.
fn try_block_grammars(markup: &str, at: usize) -> (r: Result<
    Option<(MarkUpNode, usize)>,
    TranspileError,
>)
    ensures
        outcome_reflects(block_step_at(markup@, at as int), r),
{
    match parse_heading(markup, at) {
        Some(x) => Ok(Some(x)),
        None => match parse_code_block(markup, at) {
            Err(e) => Err(e),
            Ok(Some(x)) => Ok(Some(x)),
            Ok(None) => match parse_admotion(markup, at, AdmotionKind::Info) {
                Err(e) => Err(e),
                Ok(Some(x)) => Ok(Some(x)),
                Ok(None) => match parse_admotion(markup, at, AdmotionKind::Tip) {
                    Err(e) => Err(e),
                    Ok(Some(x)) => Ok(Some(x)),
                    Ok(None) => match parse_admotion(markup, at, AdmotionKind::Warning) {
                        Err(e) => Err(e),
                        Ok(Some(x)) => Ok(Some(x)),
                        Ok(None) => match parse_admotion(markup, at, AdmotionKind::Note) {
                            Err(e) => Err(e),
                            Ok(Some(x)) => Ok(Some(x)),
                            Ok(None) => Ok(None),
                        },
                    },
                },
            },
        },
    }
}

/// Parses a whole document into its node sequence, in document order,
/// computing `parse_from` at position zero: the driver scans left to right,
/// trying the block grammars at each position and falling back to one plain
/// line, and fails on the first faulty construct.
pub fn parse_atlassian_markup(markup: &str) -> (r: Result<Vec<MarkUpNode>, TranspileError>)
    ensures
        match r {
            Ok(nodes) => parse_from(markup@, 0) matches Ok(ns) && view_nodes(nodes@) == ns,
            Err(e) => parse_from(markup@, 0) matches Err(em) && em == e@,
        },
{
    let n = markup.unicode_len();
    let mut nodes: Vec<MarkUpNode> = Vec::new();
    let mut i: usize = 0;
    while i < n
        invariant
            i <= n,
            n == markup@.len(),
            parse_from(markup@, 0) == (match parse_from(markup@, i as int) {
                Ok(rest) => Ok::<Seq<NodeModel>, ErrorModel>(view_nodes(nodes@) + rest),
                Err(e) => Err::<Seq<NodeModel>, ErrorModel>(e),
            }),
        decreases n - i,
    {
        proof {
            lemma_step_advances(markup@, i as int);
        }
        let ghost nodes_before = nodes@;
        let step = try_block_grammars(markup, i);
        match step {
            Err(e) => {
                return Err(e);
            },
            Ok(Some((node, next))) => {
                proof {
                    assert(step_at(markup@, i as int) == block_step_at(markup@, i as int));
                    lemma_push_node_keeps_invariant(markup@, i as int, nodes_before, node@, next as int);
                }
                nodes.push(node);
                i = next;
            },
            Ok(None) => {
                let (node, next) = match find_char(markup, i, '\n') {
                    Some(j) => {
                        proof {
                            lemma_find_char_bounds(markup@, i as int, '\n', j as int);
                        }
                        let text = String::from_str(markup.substring_char(i, j));
                        (MarkUpNode::PlainText(text), j + 1)
                    },
                    None => {
                        let text = String::from_str(markup.substring_char(i, n));
                        (MarkUpNode::PlainText(text), n)
                    },
                };
                proof {
                    assert(step_at(markup@, i as int) == plain_line_at(markup@, i as int));
                    lemma_push_node_keeps_invariant(markup@, i as int, nodes_before, node@, next as int);
                }
                nodes.push(node);
                i = next;
            },
        }
    }
    proof {
        assert(view_nodes(nodes@) + Seq::<NodeModel>::empty() =~= view_nodes(nodes@));
    }
    Ok(nodes)
}

/// One driver hit folds into the accumulated node sequence: the bookkeeping
/// step of `parse_atlassian_markup`'s loop.
proof fn lemma_push_node_keeps_invariant(
    s: Seq<char>,
    i: int,
    nodes: Seq<MarkUpNode>,
    nm: NodeModel,
    next: int,
)
    requires
        0 <= i < s.len(),
        step_at(s, i) == (GrammarOutcome::Hit { node: nm, next }),
        parse_from(s, 0) == (match parse_from(s, i) {
            Ok(rest) => Ok::<Seq<NodeModel>, ErrorModel>(view_nodes(nodes) + rest),
            Err(e) => Err::<Seq<NodeModel>, ErrorModel>(e),
        }),
    ensures
        forall|node: MarkUpNode|
            node@ == nm ==> parse_from(s, 0) == (match parse_from(s, next) {
                Ok(rest) => Ok::<Seq<NodeModel>, ErrorModel>(view_nodes(nodes.push(node)) + rest),
                Err(e) => Err::<Seq<NodeModel>, ErrorModel>(e),
            }),
{
    lemma_step_advances(s, i);
    assert forall|node: MarkUpNode|
        node@ == nm implies parse_from(s, 0) == (match parse_from(s, next) {
        Ok(rest) => Ok::<Seq<NodeModel>, ErrorModel>(view_nodes(nodes.push(node)) + rest),
        Err(e) => Err::<Seq<NodeModel>, ErrorModel>(e),
    }) by {
        assert(view_nodes(nodes.push(node)) =~= view_nodes(nodes).push(nm));
        match parse_from(s, next) {
            Ok(rest) => {
                assert(parse_from(s, i) == Ok::<Seq<NodeModel>, ErrorModel>(seq![nm] + rest));
                assert(view_nodes(nodes) + (seq![nm] + rest) =~= view_nodes(nodes).push(nm) + rest);
            },
            Err(e) => {
                assert(parse_from(s, i) == Err::<Seq<NodeModel>, ErrorModel>(e));
            },
        }
    }
}

/// Pre-sizes the output buffer.
///
/// Relies on `String::with_capacity`: a freshly created, empty string (the
/// capacity is only an allocation hint and never observable in the value).
#[verifier::external_body]
fn string_with_capacity(capacity: usize) -> (r: String)
    ensures
        r@ == Seq::<char>::empty(),
{
    String::with_capacity(capacity)
}

/// Appends `level` hash marks onto `target`.
fn push_hash_marks(target: &mut String, level: u32)
    ensures
        final(target)@ == old(target)@ + hash_marks(level as int),
{
    let ghost t0 = target@;
    proof {
        assert(t0 + hash_marks(0) =~= t0);
    }
    let mut k: u32 = 0;
    while k < level
        invariant
            k <= level,
            target@ == t0 + hash_marks(k as int),
        decreases level - k,
    {
        target.append("#");
        proof {
            reveal_strlit("#");
            assert(t0 + hash_marks(k as int) + "#"@ =~= t0 + hash_marks(k as int + 1));
        }
        k = k + 1;
    }
}

impl MarkUpNode {
    /// Appends this node's Markdown onto `target`: the node's own render,
    /// then the exactly one newline the wrapper owes every node.
    pub fn push_content_onto_string(&self, target: &mut String)
        ensures
            final(target)@ == old(target)@ + render(self@),
    {
        let ghost t0 = target@;
        match self {
            MarkUpNode::PlainText(content) => {
                target.append(content.as_str());
            },
            MarkUpNode::Heading { level, text } => {
                push_hash_marks(target, *level);
                target.append(" ");
                target.append(text.as_str());
            },
            MarkUpNode::CodeBlock { language, content } => {
                target.append("```");
                if let Some(lang) = language {
                    target.append(lang.as_str());
                }
                target.append("\n");
                target.append(content.as_str());
                target.append("```");
            },
            MarkUpNode::Admotion { kind, title, show_icon: _, content } => {
                match kind {
                    AdmotionKind::Info => target.append("> [!INFO]"),
                    AdmotionKind::Tip => target.append("> [!TIP]"),
                    AdmotionKind::Warning => target.append("> [!WARNING]"),
                    AdmotionKind::Note => target.append("> [!NOTE]"),
                };
                if let Some(title) = title {
                    target.append("**");
                    target.append(title.as_str());
                    target.append("**");
                }
                target.append(content.as_str());
            },
        }
        target.append("\n");
        proof {
            assert(target@ =~= t0 + render(self@));
        }
    }

    /// This node's Markdown text alone, trailing newline included.
    pub fn to_markdown_string(&self) -> (r: String)
        ensures
            r@ == render(self@),
    {
        let mut target = String::new();
        self.push_content_onto_string(&mut target);
        proof {
            assert(Seq::<char>::empty() + render(self@) =~= render(self@));
        }
        target
    }
}

/// Transpiles a whole document of the wiki markup dialect to Markdown, or
/// reports the first faulty construct as a structured error: the
/// mathematical statement of both cases is `transpile_model`. Text in which
/// no recognized construct begins is passed through as plain lines.
pub fn transpile_atlassian_markup_to_markdown(atlassian_markup: &str) -> (r: Result<
    String,
    TranspileError,
>)
    ensures
        match r {
            Ok(markdown) => transpile_model(atlassian_markup@) matches Ok(o) && markdown@ == o,
            Err(e) => transpile_model(atlassian_markup@) matches Err(em) && em == e@,
        },
{
    let byte_len = atlassian_markup.len();
    let capacity = if byte_len <= usize::MAX / 2 {
        byte_len * 2
    } else {
        byte_len
    };
    match parse_atlassian_markup(atlassian_markup) {
        Err(e) => Err(e),
        Ok(nodes) => {
            let ghost ns = view_nodes(nodes@);
            let mut markdown = string_with_capacity(capacity);
            proof {
                assert(Seq::<char>::empty() =~= render_doc(ns.take(0)));
            }
            let mut k: usize = 0;
            while k < nodes.len()
                invariant
                    k <= nodes.len(),
                    ns == view_nodes(nodes@),
                    markdown@ == render_doc(ns.take(k as int)),
                decreases nodes.len() - k,
            {
                proof {
                    assert(ns.take(k as int + 1) =~= ns.take(k as int).push(ns[k as int]));
                    lemma_render_doc_snoc(ns.take(k as int), ns[k as int]);
                    assert(nodes@[k as int]@ == ns[k as int]);
                }
                nodes[k].push_content_onto_string(&mut markdown);
                k = k + 1;
            }
            proof {
                assert(ns.take(nodes@.len() as int) =~= ns);
            }
            Ok(markdown)
        },
    }
}

// ---------------------------------------------------------------------------
// Laws
// ---------------------------------------------------------------------------

proof fn lemma_find_char_first(s: Seq<char>, i: int, j: int, c: char)
    requires
        0 <= i <= j < s.len(),
        s[j] == c,
        forall|k: int| i <= k < j ==> s[k] != c,
    ensures
        find_char_from(s, i, c) == Some(j),
    decreases j - i,
{
    if i < j {
        assert(s[i] != c);
        lemma_find_char_first(s, i + 1, j, c);
    }
}

/// Law: for every heading level and text, transpiling the one-line document
/// `h<digit>. <text>` (terminated by a newline) yields exactly that many
/// hash marks, one space, the text, and the newline — nothing else. The
/// text must contain no line terminator and must not begin with a space or
/// tab: leading inline whitespace belongs to the heading's separator, which
/// consumes it.
pub proof fn lemma_heading_line_law(d: char, text: Seq<char>)
    requires
        digit_char(d),
        1 <= digit_val(d) <= 6,
        forall|k: int| 0 <= k < text.len() ==> text[k] != '\n',
        text.len() > 0 ==> !inline_ws_char(text[0]),
    ensures
        transpile_model(seq!['h', d, '.', ' '] + text + seq!['\n']) == Ok::<Seq<char>, ErrorModel>(
            hash_marks(digit_val(d)) + " "@ + text + "\n"@,
        ),
{
    reveal_strlit(" ");
    reveal_strlit("\n");
    let s = seq!['h', d, '.', ' '] + text + seq!['\n'];
    let len = s.len() as int;
    assert(len == 5 + text.len());
    assert(s[0] == 'h');
    assert(s[1] == d);
    assert(s[2] == '.');
    assert(s[3] == ' ');
    assert(s[len - 1] == '\n');
    assert forall|k: int| 4 <= k < len - 1 implies s[k] == text[k - 4] by {}
    reveal_with_fuel(skip_inline_ws_from, 3);
    assert(skip_inline_ws_from(s, 4) == 4) by {
        if text.len() > 0 {
            assert(s[4] == text[0]);
        } else {
            assert(s[4] == '\n');
        }
    }
    assert(skip_inline_ws_from(s, 3) == 4);
    assert forall|k: int| 4 <= k < len - 1 implies s[k] != '\n' by {
        assert(s[k] == text[k - 4]);
    }
    lemma_find_char_first(s, 4, len - 1, '\n');
    let node = NodeModel::Heading { level: digit_val(d), text: s.subrange(4, len - 1) };
    assert(heading_at(s, 0) == GrammarOutcome::Hit { node, next: len });
    assert(s.subrange(4, len - 1) =~= text);
    assert(step_at(s, 0) == heading_at(s, 0));
    assert(parse_from(s, len) == Ok::<Seq<NodeModel>, ErrorModel>(Seq::empty()));
    assert(parse_from(s, 0) == Ok::<Seq<NodeModel>, ErrorModel>(
        seq![node] + Seq::<NodeModel>::empty(),
    ));
    let ns = seq![node] + Seq::<NodeModel>::empty();
    assert(ns =~= seq![node]);
    reveal_with_fuel(render_doc, 3);
    assert(ns.drop_first() =~= Seq::<NodeModel>::empty());
    assert(render_doc(ns) =~= render(node));
    assert(render(node) =~= hash_marks(digit_val(d)) + " "@ + text + "\n"@);
}

/// Law: rendering is order-preserving and inserts nothing: the render of a
/// concatenation of node sequences is the concatenation of their renders.
/// With `parse_atlassian_markup`'s contract this pins the shape the second
/// testable property asks for: k recognized blocks interleaved with plain
/// lines come out as k rendered blocks in the same order.
pub proof fn lemma_render_doc_append(a: Seq<NodeModel>, b: Seq<NodeModel>)
    ensures
        render_doc(a + b) == render_doc(a) + render_doc(b),
    decreases a.len(),
{
    reveal_with_fuel(render_doc, 2);
    if a.len() == 0 {
        assert(a + b =~= b);
        assert(Seq::<char>::empty() + render_doc(b) =~= render_doc(b));
        assert(render_doc(a + b) =~= render_doc(a) + render_doc(b));
    } else {
        assert((a + b).len() > 0);
        assert((a + b)[0] == a[0]);
        assert((a + b).drop_first() =~= a.drop_first() + b);
        lemma_render_doc_append(a.drop_first(), b);
        assert(render(a[0]) + (render_doc(a.drop_first()) + render_doc(b)) =~= (render(a[0])
            + render_doc(a.drop_first())) + render_doc(b));
        assert(render_doc(a + b) =~= render_doc(a) + render_doc(b));
    }
}

/// Law: a plain line passes through rendering with its content identical
/// and exactly one trailing newline.
pub proof fn lemma_plain_text_render(text: Seq<char>)
    ensures
        render(NodeModel::PlainText { text }) == text + "\n"@,
{
}

/// Law (first-match-wins): when an option list carries several `language=`
/// entries, the one projected into the code block is the earliest in
/// declaration order; later ones are silently ignored.
pub proof fn lemma_first_language_first_wins(opts: Seq<CodeOptModel>, i: int)
    requires
        0 <= i < opts.len(),
        opts[i] is Language,
        forall|j: int| 0 <= j < i ==> !(opts[j] is Language),
    ensures
        first_language(opts) == Some(opts[i]->Language_0),
    decreases i,
{
    if i == 0 {
    } else {
        assert(!(opts[0] is Language));
        assert(opts.drop_first()[i - 1] == opts[i]);
        assert forall|j: int| 0 <= j < i - 1 implies !(opts.drop_first()[j] is Language) by {
            assert(opts.drop_first()[j] == opts[j + 1]);
        }
        lemma_first_language_first_wins(opts.drop_first(), i - 1);
    }
}

/// Law (first-match-wins): the `title` folded into an admonition is the
/// earliest `title=` entry in declaration order.
pub proof fn lemma_first_adm_title_first_wins(opts: Seq<AdmOptModel>, i: int)
    requires
        0 <= i < opts.len(),
        opts[i] is Title,
        forall|j: int| 0 <= j < i ==> !(opts[j] is Title),
    ensures
        first_adm_title(opts) == Some(opts[i]->Title_0),
    decreases i,
{
    if i == 0 {
    } else {
        assert(!(opts[0] is Title));
        assert(opts.drop_first()[i - 1] == opts[i]);
        assert forall|j: int| 0 <= j < i - 1 implies !(opts.drop_first()[j] is Title) by {
            assert(opts.drop_first()[j] == opts[j + 1]);
        }
        lemma_first_adm_title_first_wins(opts.drop_first(), i - 1);
    }
}

/// Law (first-match-wins): the `show_icon` flag folded into an admonition
/// is the earliest `show_icon=` entry in declaration order.
pub proof fn lemma_first_show_icon_first_wins(opts: Seq<AdmOptModel>, i: int)
    requires
        0 <= i < opts.len(),
        opts[i] is ShowIcon,
        forall|j: int| 0 <= j < i ==> !(opts[j] is ShowIcon),
    ensures
        first_show_icon(opts) == opts[i]->ShowIcon_0,
    decreases i,
{
    if i == 0 {
    } else {
        assert(!(opts[0] is ShowIcon));
        assert(opts.drop_first()[i - 1] == opts[i]);
        assert forall|j: int| 0 <= j < i - 1 implies !(opts.drop_first()[j] is ShowIcon) by {
            assert(opts.drop_first()[j] == opts[j + 1]);
        }
        lemma_first_show_icon_first_wins(opts.drop_first(), i - 1);
    }
}

} // verus!
