//! What is to be done to a file on disk.

use vstd::prelude::*;

use crate::text::text_eq;

verus! {

/// What is to be done to a file.
#[derive(Debug)]
pub enum WritePlan {
    /// The file stays as it is.
    Keep,
    /// The file gets this text; where `backup` is set, what it held is saved first.
    Write { text: String, backup: bool },
}

/// The content of a [`WritePlan`].
pub enum PlanView {
    Keep,
    Write { text: Seq<char>, backup: bool },
}

impl View for WritePlan {
    type V = PlanView;

    open spec fn view(&self) -> PlanView {
        match *self {
            WritePlan::Keep => PlanView::Keep,
            WritePlan::Write { text, backup } => PlanView::Write { text: text@, backup },
        }
    }
}

/// A file that holds `raw` is to hold `text`: nothing is done where it already
/// does, and whatever it held is saved first.
pub open spec fn plan_of(raw: Seq<char>, text: Seq<char>) -> PlanView {
    if text == raw {
        PlanView::Keep
    } else {
        PlanView::Write { text, backup: raw.len() > 0 }
    }
}

/// What a file that held `raw` holds once a plan has been carried out.
pub open spec fn carried_out(raw: Seq<char>, plan: PlanView) -> Seq<char> {
    match plan {
        PlanView::Keep => raw,
        PlanView::Write { text, backup } => text,
    }
}

/// The text of a file, where there is one, once a plan has been carried out.
pub open spec fn left_by(raw: Option<Seq<char>>, plan: PlanView) -> Option<Seq<char>> {
    match plan {
        PlanView::Keep => raw,
        PlanView::Write { text, backup } => Some(text),
    }
}

/// A plan that writes a text leaves that text in the file; it saves what the file
/// held exactly where that was something else and not empty.
pub proof fn law_plan_writes(raw: Seq<char>, text: Seq<char>)
    ensures
        carried_out(raw, plan_of(raw, text)) == text,
        plan_of(raw, text) is Keep <==> raw == text,
        (plan_of(raw, text) matches PlanView::Write { text: _, backup } && backup) <==> raw != text
            && raw.len() > 0,
{
}

/// The plan for a file that holds `raw` and is to hold `text`.
pub fn plan_write(raw: &str, text: String) -> (r: WritePlan)
    ensures
        r@ == plan_of(raw@, text@),
{
    if text_eq(text.as_str(), raw) {
        WritePlan::Keep
    } else {
        WritePlan::Write { text, backup: raw.unicode_len() > 0 }
    }
}

/// The place of the copy that was made while a plan was carried out: none where
/// the plan asks for none.
pub fn backup_of(plan: &WritePlan, backup_path: Option<String>) -> (r: Option<String>)
    ensures
        r == (if plan@ matches PlanView::Write { text: _, backup } && backup {
            backup_path
        } else {
            None
        }),
{
    match plan {
        WritePlan::Write { text: _, backup } => if *backup {
            backup_path
        } else {
            None
        },
        WritePlan::Keep => None,
    }
}

} // verus!
