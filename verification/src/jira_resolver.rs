//! The ticket side of the hover feature: a ticket reduced to the plain
//! fields the hover text needs, the fixed layout of that hover text, and
//! the description enrichment that runs the transpiler over a ticket's
//! markup. Fetching tickets from the tracker is network work and lives
//! outside the library.

use vstd::prelude::*;

verus! {

use crate::atlassian_markup_transpiler::transpile_atlassian_markup_to_markdown;
use crate::atlassian_markup_transpiler::transpile_model;

/// One ticket, reduced to the plain fields the hover text needs.
#[derive(Debug, PartialEq, Eq, Clone)]
pub struct JiraTicket {
    pub key: String,
    pub title: String,
    pub description: String,
    pub assignee: Option<String>,
    pub status: String,
}

/// The fixed layout of a ticket's hover text: its title as a heading, a
/// separator, a status line with icons and a fixed date, a second
/// separator, then the description. An absent assignee reads `Unassigned`.
pub open spec fn ticket_markdown(t: JiraTicket) -> Seq<char> {
    "\n# "@ + t.title@ + "\n---\n\u{F15AB} "@ + t.status@ + " | \u{F00ED} 2024-12-31 | \u{F2BD} "@
        + (match t.assignee {
        Some(a) => a@,
        None => "Unassigned"@,
    }) + "\n\n---\n"@ + t.description@ + "\n"@
}

impl JiraTicket {
    /// The ticket's hover text, exactly as `ticket_markdown` lays it out.
    pub fn to_string(&self) -> (r: String)
        ensures
            r@ == ticket_markdown(*self),
    {
        let mut out = String::new();
        out.append("\n# ");
        out.append(self.title.as_str());
        out.append("\n---\n\u{F15AB} ");
        out.append(self.status.as_str());
        out.append(" | \u{F00ED} 2024-12-31 | \u{F2BD} ");
        match &self.assignee {
            Some(a) => out.append(a.as_str()),
            None => out.append("Unassigned"),
        };
        out.append("\n\n---\n");
        out.append(self.description.as_str());
        out.append("\n");
        proof {
            assert(out@ =~= ticket_markdown(*self));
        }
        out
    }
}

/// The description text a ticket's hover carries: the raw description, a
/// banner line, then the transpiled Markdown of everything above the
/// rendering (description and banner together: the banner's lines are plain
/// text and pass through unchanged). `No description` stands in when the
/// tracker supplied none. A transpile failure never escapes to the caller:
/// the untranspiled text stands in for the rendering then.
pub fn description_markdown(description: Option<&str>) -> (r: String)
    ensures
        description matches Some(d) ==> r@ == d@ + "\n\nHere is transpiled:\n\n"@ + (
        match transpile_model(d@ + "\n\nHere is transpiled:\n\n"@) {
            Ok(t) => t,
            Err(_) => d@ + "\n\nHere is transpiled:\n\n"@,
        }),
        description is None ==> r@ == "No description"@,
{
    match description {
        None => String::from_str("No description"),
        Some(d) => {
            let mut out = String::from_str(d);
            out.append("\n\nHere is transpiled:\n\n");
            match transpile_atlassian_markup_to_markdown(out.as_str()) {
                Ok(t) => out.append(t.as_str()),
                Err(_) => {
                    let untranspiled = out.clone();
                    out.append(untranspiled.as_str());
                },
            };
            out
        },
    }
}

} // verus!
