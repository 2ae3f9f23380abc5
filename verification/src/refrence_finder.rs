//! The in-file ticket-reference scanner: finds inline references of the
//! form three-or-more capital letters, a hyphen, and digits (`ABC-123`) in a
//! text, with the line and in-line character range of each, plus the small
//! position types the surrounding editor tooling exchanges with it.

use vstd::prelude::*;

verus! {

use crate::atlassian_markup_transpiler::digit_char;
use crate::atlassian_markup_transpiler::is_digit_char;
use crate::atlassian_markup_transpiler::lemma_scan_digits_chars;
use crate::atlassian_markup_transpiler::scan_digits;
use crate::atlassian_markup_transpiler::scan_digits_end;

/// A position in a document: a zero-based line and a zero-based character
/// offset within that line.
#[derive(Debug, PartialEq, Eq, Clone, Copy, Structural)]
pub struct Position {
    pub line: u32,
    pub character: u32,
}

/// A document range between two positions.
#[derive(Debug, PartialEq, Eq, Clone, Copy, Structural)]
pub struct Range {
    pub start: Position,
    pub end: Position,
}

/// A character range within a single line: a `Range` whose start and end
/// share one line.
#[derive(Debug, PartialEq, Eq, Clone, Copy, Structural)]
pub struct InlineRange {
    line: u32,
    start_character: u32,
    end_character: u32,
}

/// Ghost counterpart of `InlineRange` with unbounded coordinates.
pub ghost struct InlineRangeModel {
    pub line: int,
    pub start_character: int,
    pub end_character: int,
}

impl View for InlineRange {
    type V = InlineRangeModel;

    closed spec fn view(&self) -> InlineRangeModel {
        InlineRangeModel {
            line: self.line as int,
            start_character: self.start_character as int,
            end_character: self.end_character as int,
        }
    }
}

/// What an in-file reference points at.
#[derive(Debug, PartialEq, Eq, Clone)]
pub enum InFileRefrenceType {
    JiraRefrence { ticket: String },
    GitHubUrlRefrence { url: String },
    GitLabUrlRefrence { url: String },
}

/// Ghost counterpart of `InFileRefrenceType`.
pub ghost enum RefMarkerModel {
    JiraRefrence { ticket: Seq<char> },
    GitHubUrlRefrence { url: Seq<char> },
    GitLabUrlRefrence { url: Seq<char> },
}

impl View for InFileRefrenceType {
    type V = RefMarkerModel;

    open spec fn view(&self) -> RefMarkerModel {
        match self {
            InFileRefrenceType::JiraRefrence { ticket } => RefMarkerModel::JiraRefrence {
                ticket: ticket@,
            },
            InFileRefrenceType::GitHubUrlRefrence { url } => RefMarkerModel::GitHubUrlRefrence {
                url: url@,
            },
            InFileRefrenceType::GitLabUrlRefrence { url } => RefMarkerModel::GitLabUrlRefrence {
                url: url@,
            },
        }
    }
}

/// One reference found in a file: what it points at, and where it stands.
#[derive(Debug, PartialEq, Eq, Clone)]
pub struct InFileRefrence {
    pub marker: InFileRefrenceType,
    pub range: InlineRange,
}

/// Ghost counterpart of `InFileRefrence`.
pub ghost struct RefModel {
    pub marker: RefMarkerModel,
    pub range: InlineRangeModel,
}

impl View for InFileRefrence {
    type V = RefModel;

    open spec fn view(&self) -> RefModel {
        RefModel { marker: self.marker@, range: self.range@ }
    }
}

/// Why a `Range` could not be narrowed to an `InlineRange`.
#[derive(Debug, PartialEq, Eq, Clone, Copy, Structural)]
pub enum InlineRangeTryFromError {
    MultiLineRange,
}

impl InlineRange {
    /// Whether a position falls inside this range: same line, character at
    /// or after the start and strictly before the end.
    pub fn contains_position(&self, other_position: Position) -> (r: bool)
        ensures
            r == (self@.line == other_position.line as int && self@.start_character
                <= other_position.character as int && (other_position.character as int)
                < self@.end_character),
    {
        self.line == other_position.line && self.start_character <= other_position.character
            && other_position.character < self.end_character
    }

    /// The range's first position.
    pub fn start_position(&self) -> (r: Position)
        ensures
            r.line as int == self@.line,
            r.character as int == self@.start_character,
    {
        Position { line: self.line, character: self.start_character }
    }

    /// The position just after the range.
    pub fn end_position(&self) -> (r: Position)
        ensures
            r.line as int == self@.line,
            r.character as int == self@.end_character,
    {
        Position { line: self.line, character: self.end_character }
    }

    /// Narrows a `Range` to an `InlineRange`: succeeds exactly when start
    /// and end lie on one line.
    pub fn try_from(value: Range) -> (r: Result<InlineRange, InlineRangeTryFromError>)
        ensures
            value.start.line == value.end.line ==> (r matches Ok(ir) && ir@
                == (InlineRangeModel {
                line: value.start.line as int,
                start_character: value.start.character as int,
                end_character: value.end.character as int,
            })),
            value.start.line != value.end.line ==> (r matches Err(e) && e
                == InlineRangeTryFromError::MultiLineRange),
    {
        if value.start.line != value.end.line {
            return Err(InlineRangeTryFromError::MultiLineRange);
        }
        Ok(
            InlineRange {
                line: value.start.line,
                start_character: value.start.character,
                end_character: value.end.character,
            },
        )
    }

    /// Widens this range back to a `Range` on its single line.
    pub fn to_range(self) -> (r: Range)
        ensures
            r.start.line as int == self@.line,
            r.start.character as int == self@.start_character,
            r.end.line as int == self@.line,
            r.end.character as int == self@.end_character,
    {
        Range {
            start: Position { line: self.line, character: self.start_character },
            end: Position { line: self.line, character: self.end_character },
        }
    }
}

// ---------------------------------------------------------------------------
// The scanner's model
// ---------------------------------------------------------------------------

/// A capital letter.
pub open spec fn upper_char(c: char) -> bool {
    65 <= c as u32 <= 90
}

/// End of the maximal run of capital letters starting at `i`.
pub open spec fn scan_upper_end(s: Seq<char>, i: int) -> int
    decreases s.len() - i,
{
    if 0 <= i < s.len() && upper_char(s[i]) {
        scan_upper_end(s, i + 1)
    } else {
        i
    }
}

/// End of the ticket reference starting exactly at `i`, if one starts
/// there: a maximal run of at least three capital letters (maximal on the
/// left too: the character before `i`, if any, is no capital), a hyphen,
/// then the maximal run of at least one digit.
pub open spec fn ticket_end_at(s: Seq<char>, i: int) -> Option<int> {
    let u = scan_upper_end(s, i);
    if (i == 0 || !upper_char(s[i - 1])) && u - i >= 3 && u < s.len() && s[u] == '-' && u + 1
        < s.len() && digit_char(s[u + 1]) {
        Some(scan_digits_end(s, u + 1))
    } else {
        None
    }
}

/// Number of line terminators before position `i`: the zero-based line a
/// character at `i` stands on.
pub open spec fn line_of(s: Seq<char>, i: int) -> int
    decreases i,
{
    if i <= 0 {
        0
    } else {
        line_of(s, i - 1) + if s[i - 1] == '\n' {
            1int
        } else {
            0int
        }
    }
}

/// Position of the first character of the line that position `i` stands on.
pub open spec fn line_start_of(s: Seq<char>, i: int) -> int
    decreases i,
{
    if i <= 0 {
        0
    } else if s[i - 1] == '\n' {
        i
    } else {
        line_start_of(s, i - 1)
    }
}

/// Zero-based character offset of position `i` within its line.
pub open spec fn col_of(s: Seq<char>, i: int) -> int {
    i - line_start_of(s, i)
}

/// The model of the reference spanning `s[a..b]`.
pub open spec fn ref_model_at(s: Seq<char>, a: int, b: int) -> RefModel {
    RefModel {
        marker: RefMarkerModel::JiraRefrence { ticket: s.subrange(a, b) },
        range: InlineRangeModel {
            line: line_of(s, a),
            start_character: col_of(s, a),
            end_character: col_of(s, b),
        },
    }
}

/// Every ticket reference at or after `i`, leftmost first, non-overlapping:
/// after a reference the scan resumes just past its last digit. (The empty
/// arm under a non-advancing end never arises: `lemma_ticket_end_bounds`.)
pub open spec fn refs_from(s: Seq<char>, i: int) -> Seq<RefModel>
    decreases s.len() - i,
{
    if !(0 <= i < s.len()) {
        Seq::empty()
    } else {
        match ticket_end_at(s, i) {
            Some(b) => if i < b <= s.len() {
                seq![ref_model_at(s, i, b)] + refs_from(s, b)
            } else {
                Seq::empty()
            },
            None => refs_from(s, i + 1),
        }
    }
}

/// The models of a sequence of found references.
pub open spec fn view_refs(rs: Seq<InFileRefrence>) -> Seq<RefModel> {
    rs.map_values(|r: InFileRefrence| r@)
}

// ---------------------------------------------------------------------------
// Supporting lemmas
// ---------------------------------------------------------------------------

proof fn lemma_scan_upper_bounds(s: Seq<char>, i: int)
    requires
        0 <= i <= s.len(),
    ensures
        i <= scan_upper_end(s, i) <= s.len(),
    decreases s.len() - i,
{
    if i < s.len() && upper_char(s[i]) {
        lemma_scan_upper_bounds(s, i + 1);
    }
}

/// Every character the capital-letter scanner passed over is a capital.
proof fn lemma_scan_upper_chars(s: Seq<char>, i: int)
    ensures
        forall|k: int| i <= k < scan_upper_end(s, i) ==> upper_char(s[k]),
    decreases s.len() - i,
{
    if 0 <= i < s.len() && upper_char(s[i]) {
        lemma_scan_upper_chars(s, i + 1);
        assert forall|k: int| i <= k < scan_upper_end(s, i) implies upper_char(s[k]) by {
            if k != i {
                assert(i + 1 <= k < scan_upper_end(s, i + 1));
            }
        }
    }
}

proof fn lemma_ticket_end_bounds(s: Seq<char>, i: int)
    requires
        0 <= i <= s.len(),
        ticket_end_at(s, i) is Some,
    ensures
        i + 4 < ticket_end_at(s, i)->0 <= s.len(),
{
    lemma_scan_upper_bounds(s, i);
    let u = scan_upper_end(s, i);
    crate::atlassian_markup_transpiler::lemma_scan_digits_bounds(s, u + 1);
    assert(scan_digits_end(s, u + 1) > u + 1) by {
        assert(digit_char(s[u + 1]));
        crate::atlassian_markup_transpiler::lemma_scan_digits_bounds(s, u + 2);
    }
}

/// Line bookkeeping never runs ahead of the position.
proof fn lemma_line_bounds(s: Seq<char>, i: int)
    requires
        0 <= i,
    ensures
        0 <= line_of(s, i) <= i,
        0 <= line_start_of(s, i) <= i,
    decreases i,
{
    if i > 0 {
        lemma_line_bounds(s, i - 1);
    }
}

/// Over a stretch without line terminators, the line and its start stand
/// still.
proof fn lemma_line_stable(s: Seq<char>, i: int, j: int)
    requires
        0 <= i <= j,
        forall|k: int| i <= k < j ==> s[k] != '\n',
    ensures
        line_of(s, j) == line_of(s, i),
        line_start_of(s, j) == line_start_of(s, i),
    decreases j - i,
{
    if i < j {
        assert(s[j - 1] != '\n');
        lemma_line_stable(s, i, j - 1);
    }
}

// ---------------------------------------------------------------------------
// The scanner
// ---------------------------------------------------------------------------

/// Executable test for `upper_char`.
fn is_upper_char(c: char) -> (r: bool)
    ensures
        r == upper_char(c),
{
    let u = c as u32;
    65 <= u && u <= 90
}

/// Scans to the end of a capital-letter run, computing `scan_upper_end`.
fn scan_upper(s: &str, i: usize) -> (j: usize)
    requires
        i <= s@.len(),
    ensures
        j as int == scan_upper_end(s@, i as int),
        i <= j <= s@.len(),
{
    let n = s.unicode_len();
    let mut j = i;
    while j < n && is_upper_char(s.get_char(j))
        invariant
            i <= j <= n,
            n == s@.len(),
            scan_upper_end(s@, i as int) == scan_upper_end(s@, j as int),
        decreases n - j,
    {
        j = j + 1;
    }
    j
}

/// Scans a whole text for ticket references, computing `refs_from` at
/// position zero: every reference in the text, leftmost first, each with
/// its ticket text and its line and in-line character range.
pub fn find_refrences_in_text(text: &str) -> (r: Vec<InFileRefrence>)
    requires
        text@.len() <= u32::MAX,
    ensures
        view_refs(r@) == refs_from(text@, 0),
{
    let n = text.unicode_len();
    let mut refs: Vec<InFileRefrence> = Vec::new();
    let mut line: u32 = 0;
    let mut line_start: usize = 0;
    let mut i: usize = 0;
    while i < n
        invariant
            i <= n,
            n == text@.len(),
            n <= u32::MAX,
            line_start <= i,
            line as int == line_of(text@, i as int),
            line_start as int == line_start_of(text@, i as int),
            refs_from(text@, 0) == view_refs(refs@) + refs_from(text@, i as int),
        decreases n - i,
    {
        let ghost s = text@;
        let c = text.get_char(i);
        if c == '\n' {
            proof {
                lemma_line_bounds(s, i as int + 1);
            }
            line = line + 1;
            line_start = i + 1;
            i = i + 1;
        } else if is_upper_char(c) && (i == 0 || !is_upper_char(text.get_char(i - 1))) {
            let u = scan_upper(text, i);
            if u - i >= 3 && u < n && text.get_char(u) == '-' && u + 1 < n && is_digit_char(
                text.get_char(u + 1),
            ) {
                let b = scan_digits(text, u + 1);
                proof {
                    assert(ticket_end_at(s, i as int) == Some(b as int));
                    lemma_ticket_end_bounds(s, i as int);
                    lemma_scan_upper_chars(s, i as int);
                    lemma_scan_digits_chars(s, u as int + 1);
                    assert forall|k: int| i <= k < b implies s[k] != '\n' by {
                        if k < u {
                            assert(upper_char(s[k]));
                        } else if k == u {
                            assert(s[k] == '-');
                        } else {
                            assert(digit_char(s[k]));
                        }
                    }
                    lemma_line_stable(s, i as int, b as int);
                }
                let ticket = String::from_str(text.substring_char(i, b));
                let found = InFileRefrence {
                    marker: InFileRefrenceType::JiraRefrence { ticket },
                    range: InlineRange {
                        line,
                        start_character: (i - line_start) as u32,
                        end_character: (b - line_start) as u32,
                    },
                };
                proof {
                    assert(found@ == ref_model_at(s, i as int, b as int));
                    assert(view_refs(refs@.push(found)) =~= view_refs(refs@) + seq![found@]);
                    assert(view_refs(refs@) + (seq![ref_model_at(s, i as int, b as int)]
                        + refs_from(s, b as int)) =~= (view_refs(refs@) + seq![
                        ref_model_at(s, i as int, b as int),
                    ]) + refs_from(s, b as int));
                }
                refs.push(found);
                i = b;
            } else {
                proof {
                    assert(ticket_end_at(s, i as int) is None);
                }
                i = i + 1;
            }
        } else {
            proof {
                assert(scan_upper_end(s, i as int) == i as int || upper_char(s[i as int - 1]));
                assert(ticket_end_at(s, i as int) is None);
            }
            i = i + 1;
        }
    }
    proof {
        assert(view_refs(refs@) + refs_from(text@, i as int) =~= view_refs(refs@));
    }
    refs
}

} // verus!
