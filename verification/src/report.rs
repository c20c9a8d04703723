//! The report that shows a snapshot to a user.

use vstd::prelude::*;

use crate::number::{self, push_signed};
use crate::text::{chars_of, push_text};
use crate::usage::{self, AntigravityCliUsage, CreditBalance, ModelQuota, Quota, Usage};

verus! {

/// How wide the column with the labels of the models is.
pub const LABEL_WIDTH: usize = 34;

/// A line of the report: a plain part, a dimmed one, and a plain one again.
#[derive(Debug)]
pub struct ReportLine {
    pub lead: String,
    pub dim: String,
    pub tail: String,
}

/// What a [`ReportLine`] shows.
pub struct Line {
    pub lead: Seq<char>,
    pub dim: Seq<char>,
    pub tail: Seq<char>,
}

impl View for ReportLine {
    type V = Line;

    open spec fn view(&self) -> Line {
        Line { lead: self.lead@, dim: self.dim@, tail: self.tail@ }
    }
}

// ---------------------------------------------------------------------------
// Parts of a line
// ---------------------------------------------------------------------------

/// A text and a detail of it, between `open` and `close`; the one that is known, if
/// only one is; and `unknown`, if none is.
pub open spec fn detailed(
    main: Option<Seq<char>>,
    detail: Option<Seq<char>>,
    open: Seq<char>,
    close: Seq<char>,
    unknown: Seq<char>,
) -> Seq<char> {
    match (main, detail) {
        (Some(main), Some(detail)) => main + open + detail + close,
        (Some(main), None) => main,
        (None, Some(detail)) => detail,
        (None, None) => unknown,
    }
}

/// The account, as the report names it.
pub open spec fn account_text(usage: Usage) -> Seq<char> {
    detailed(usage.name, usage.email, " <"@, ">"@, "(unknown account)"@)
}

/// The plan, as the report names it.
pub open spec fn plan_text(usage: Usage) -> Seq<char> {
    detailed(usage.plan_name, usage.teams_tier, " ("@, ")"@, "(unknown plan)"@)
}

/// A credit bucket, as the report shows it.
pub open spec fn credit_text(credit: CreditBalance) -> Seq<char> {
    match (credit.available, credit.monthly) {
        (Some(available), Some(monthly)) => number::signed_decimal(available as int)
            + " available / "@ + number::signed_decimal(monthly as int) + " monthly"@,
        (Some(available), None) => number::signed_decimal(available as int) + " available"@,
        (None, Some(monthly)) => number::signed_decimal(monthly as int) + " monthly"@,
        (None, None) => "(unavailable)"@,
    }
}

/// The text, filled up with spaces to `width` characters.
pub open spec fn padded(text: Seq<char>, width: nat) -> Seq<char> {
    text + Seq::new(
        if text.len() < width {
            (width - text.len()) as nat
        } else {
            0
        },
        |i: int| ' ',
    )
}

/// Writes a text and a detail of it.
fn detailed_text(
    main: &Option<String>,
    detail: &Option<String>,
    open: &str,
    close: &str,
    unknown: &str,
) -> (r: String)
    ensures
        r@ == detailed(
            usage::text_view(*main),
            usage::text_view(*detail),
            open@,
            close@,
            unknown@,
        ),
{
    match (main, detail) {
        (Some(main), Some(detail)) => {
            let mut r: String = main.clone();
            push_text(&mut r, open);
            push_text(&mut r, detail.as_str());
            push_text(&mut r, close);
            r
        },
        (Some(main), None) => main.clone(),
        (None, Some(detail)) => detail.clone(),
        (None, None) => unknown.to_owned(),
    }
}

/// Writes a credit bucket.
pub fn format_credit(credit: &CreditBalance) -> (r: String)
    ensures
        r@ == credit_text(*credit),
{
    let mut r: String = String::new();
    match (credit.available, credit.monthly) {
        (Some(available), Some(monthly)) => {
            push_signed(&mut r, available);
            push_text(&mut r, " available / ");
            push_signed(&mut r, monthly);
            push_text(&mut r, " monthly");
        },
        (Some(available), None) => {
            push_signed(&mut r, available);
            push_text(&mut r, " available");
        },
        (None, Some(monthly)) => {
            push_signed(&mut r, monthly);
            push_text(&mut r, " monthly");
        },
        (None, None) => {
            push_text(&mut r, "(unavailable)");
        },
    }
    assert(r@ =~= credit_text(*credit));
    r
}

/// Appends `text`, filled up with spaces to `width` characters.
fn push_padded(out: &mut String, text: &str, width: usize)
    ensures
        final(out)@ == old(out)@ + padded(text@, width as nat),
{
    let chars: Vec<char> = chars_of(text);
    push_text(out, text);
    let ghost begun = out@;
    let mut used: usize = chars.len();
    assert(out@ =~= begun + Seq::new(0, |i: int| ' '));
    while used < width
        invariant
            chars@.len() <= used,
            used <= width || used == chars@.len(),
            out@ == begun + Seq::new((used - chars@.len()) as nat, |i: int| ' '),
        decreases width - used,
    {
        let ghost spaces = Seq::new((used - chars@.len()) as nat, |i: int| ' ');
        out.push(' ');
        used = used + 1;
        assert(spaces.push(' ') =~= Seq::new((used - chars@.len()) as nat, |i: int| ' '));
        assert(out@ =~= begun + spaces.push(' '));
    }
    assert(out@ =~= old(out)@ + padded(text@, width as nat));
}

// ---------------------------------------------------------------------------
// The report
// ---------------------------------------------------------------------------

/// The line with the label `label` and the value `value`.
pub open spec fn labelled(label: Seq<char>, value: Seq<char>) -> Line {
    Line { lead: "  "@, dim: label, tail: " "@ + value }
}

/// The line of a model, when `remaining` shows how much of its quota is left, if that
/// is known.
pub open spec fn model_line(quota: Quota, remaining: Option<Seq<char>>) -> Line {
    Line {
        lead: "    - "@ + padded(quota.label, LABEL_WIDTH as nat) + " "@ + (match remaining {
            Some(text) => text,
            None => "  ?"@,
        }) + " left  resets "@,
        dim: match quota.reset_time {
            Some(text) => text,
            None => "-"@,
        },
        tail: ""@,
    }
}

/// The lines of the account: who it is, the plan and the credits.
pub open spec fn account_lines(usage: Usage) -> Seq<Line> {
    seq![
        labelled("account:"@, account_text(usage)),
        labelled("plan:   "@, plan_text(usage)),
        labelled("prompt: "@, credit_text(usage.prompt_credits)),
        labelled("flow:   "@, credit_text(usage.flow_credits)),
    ]
}

/// The lines of the models: a heading and one line each, or nothing when there are no
/// models.
pub open spec fn model_lines(
    models: Seq<Quota>,
    remaining: Seq<Option<Seq<char>>>,
) -> Seq<Line> {
    if models.len() == 0 {
        seq![]
    } else {
        seq![Line { lead: "  "@, dim: "models:"@, tail: ""@ }] + Seq::new(
            models.len(),
            |i: int| model_line(models[i], remaining[i]),
        )
    }
}

/// The report of a snapshot, when `remaining` shows how much of the quota of each model
/// is left.
pub open spec fn report(usage: Usage, remaining: Seq<Option<Seq<char>>>) -> Seq<Line> {
    account_lines(usage) + model_lines(usage.models, remaining)
}

/// What the texts in `texts` say.
pub open spec fn text_views(texts: Seq<Option<String>>) -> Seq<Option<Seq<char>>> {
    Seq::new(texts.len(), |i: int| usage::text_view(texts[i]))
}

/// What the lines in `lines` show.
pub open spec fn line_views(lines: Seq<ReportLine>) -> Seq<Line> {
    Seq::new(lines.len(), |i: int| lines[i]@)
}

/// Writes a line with a label and a value.
fn labelled_line(label: &str, value: &String) -> (r: ReportLine)
    ensures
        r@ == labelled(label@, value@),
{
    let mut tail: String = String::new();
    push_text(&mut tail, " ");
    push_text(&mut tail, value.as_str());
    assert(tail@ =~= " "@ + value@);
    ReportLine { lead: "  ".to_owned(), dim: label.to_owned(), tail }
}

/// Writes the line of a model.
fn quota_line(model: &ModelQuota, remaining: &Option<String>) -> (r: ReportLine)
    ensures
        r@ == model_line(model@, usage::text_view(*remaining)),
{
    let mut lead: String = String::new();
    push_text(&mut lead, "    - ");
    push_padded(&mut lead, model.label.as_str(), LABEL_WIDTH);
    push_text(&mut lead, " ");
    match remaining {
        Some(text) => push_text(&mut lead, text.as_str()),
        None => push_text(&mut lead, "  ?"),
    }
    push_text(&mut lead, " left  resets ");
    let dim: String = match &model.reset_time {
        Some(text) => text.clone(),
        None => "-".to_owned(),
    };
    let r = ReportLine { lead, dim, tail: "".to_owned() };
    assert(r@.lead =~= model_line(model@, usage::text_view(*remaining)).lead);
    r
}

/// Writes the report of a snapshot: account, plan, credit balances, and a line for the
/// quota of each model. `remaining` shows how much of each quota is left, if that is
/// known.
pub fn report_lines(
    usage: &AntigravityCliUsage,
    remaining: &Vec<Option<String>>,
) -> (r: Vec<ReportLine>)
    requires
        remaining@.len() == usage.models@.len(),
    ensures
        line_views(r@) == report(usage@, text_views(remaining@)),
{
    let account: String = detailed_text(
        &usage.name,
        &usage.email,
        " <",
        ">",
        "(unknown account)",
    );
    let plan: String = detailed_text(
        &usage.plan_name,
        &usage.teams_tier,
        " (",
        ")",
        "(unknown plan)",
    );
    let mut lines: Vec<ReportLine> = Vec::new();
    lines.push(labelled_line("account:", &account));
    lines.push(labelled_line("plan:   ", &plan));
    lines.push(labelled_line("prompt: ", &format_credit(&usage.prompt_credits)));
    lines.push(labelled_line("flow:   ", &format_credit(&usage.flow_credits)));
    assert(line_views(lines@) =~= account_lines(usage@));
    if usage.models.len() > 0 {
        let heading = ReportLine {
            lead: "  ".to_owned(),
            dim: "models:".to_owned(),
            tail: "".to_owned(),
        };
        let ghost begun = line_views(lines@.push(heading));
        lines.push(heading);
        assert(begun =~= account_lines(usage@) + seq![
            Line { lead: "  "@, dim: "models:"@, tail: ""@ },
        ]);
        let mut i: usize = 0;
        assert(line_views(lines@) =~= begun + Seq::new(
            0,
            |j: int| model_line(usage@.models[j], text_views(remaining@)[j]),
        ));
        while i < usage.models.len()
            invariant
                i <= usage.models@.len(),
                remaining@.len() == usage.models@.len(),
                line_views(lines@) == begun + Seq::new(
                    i as nat,
                    |j: int| model_line(usage@.models[j], text_views(remaining@)[j]),
                ),
            decreases usage.models@.len() - i,
        {
            let line = quota_line(&usage.models[i], &remaining[i]);
            let ghost before = line_views(lines@);
            lines.push(line);
            assert(line_views(lines@) =~= before.push(line@));
            assert(line@ == model_line(usage@.models[i as int], text_views(remaining@)[i as int]));
            i = i + 1;
            assert(line_views(lines@) =~= begun + Seq::new(
                i as nat,
                |j: int| model_line(usage@.models[j], text_views(remaining@)[j]),
            ));
        }
    }
    assert(line_views(lines@) =~= report(usage@, text_views(remaining@)));
    lines
}

/// Labels that fit into their column are followed by the rest of the line at the same
/// place, whatever their length.
pub proof fn columns_are_aligned(quota: Quota, remaining: Option<Seq<char>>)
    requires
        quota.label.len() <= LABEL_WIDTH,
    ensures
        model_line(quota, remaining).lead.skip(("    - "@).len() + LABEL_WIDTH) == " "@ + (
        match remaining {
            Some(text) => text,
            None => "  ?"@,
        }) + " left  resets "@,
{
    let shown = match remaining {
        Some(text) => text,
        None => "  ?"@,
    };
    assert(model_line(quota, remaining).lead.skip(("    - "@).len() + LABEL_WIDTH) =~= " "@ + shown
        + " left  resets "@);
}

/// The report begins with the account: the name with the address in angle brackets, or the
/// one that is known.
pub proof fn report_names_the_account(usage: Usage, remaining: Seq<Option<Seq<char>>>)
    ensures
        ({
            let line = report(usage, remaining)[0];
            &&& line.lead == "  "@
            &&& line.dim == "account:"@
            &&& match (usage.name, usage.email) {
                (Some(name), Some(email)) => line.tail == " "@ + (name + " <"@ + email + ">"@),
                (Some(name), None) => line.tail == " "@ + name,
                (None, Some(email)) => line.tail == " "@ + email,
                (None, None) => line.tail == " "@ + "(unknown account)"@,
            }
        }),
{
}

/// Then comes the plan: its name with the tier in brackets, or the one that is known.
pub proof fn report_names_the_plan(usage: Usage, remaining: Seq<Option<Seq<char>>>)
    ensures
        ({
            let line = report(usage, remaining)[1];
            &&& line.lead == "  "@
            &&& line.dim == "plan:   "@
            &&& match (usage.plan_name, usage.teams_tier) {
                (Some(name), Some(tier)) => line.tail == " "@ + (name + " ("@ + tier + ")"@),
                (Some(name), None) => line.tail == " "@ + name,
                (None, Some(tier)) => line.tail == " "@ + tier,
                (None, None) => line.tail == " "@ + "(unknown plan)"@,
            }
        }),
{
}

/// Then come the credits for prompts and those for flows.
pub proof fn report_shows_both_credits(usage: Usage, remaining: Seq<Option<Seq<char>>>)
    ensures
        report(usage, remaining)[2] == (Line {
            lead: "  "@,
            dim: "prompt: "@,
            tail: " "@ + credit_text(usage.prompt_credits),
        }),
        report(usage, remaining)[3] == (Line {
            lead: "  "@,
            dim: "flow:   "@,
            tail: " "@ + credit_text(usage.flow_credits),
        }),
{
}

/// Credits show what is available and what comes each month, as far as it is known.
pub proof fn credits_show_both_numbers(a: i64, m: i64)
    ensures
        credit_text(CreditBalance { available: Some(a), monthly: Some(m) })
            == number::signed_decimal(a as int) + " available / "@ + number::signed_decimal(
            m as int,
        ) + " monthly"@,
        credit_text(CreditBalance { available: Some(a), monthly: None }) == number::signed_decimal(
            a as int,
        ) + " available"@,
        credit_text(CreditBalance { available: None, monthly: Some(m) }) == number::signed_decimal(
            m as int,
        ) + " monthly"@,
        credit_text(CreditBalance { available: None, monthly: None }) == "(unavailable)"@,
{
}

/// The models follow under a heading, one line each: the label, filled up to 34 characters,
/// how much is left, and when the quota is reset.
pub proof fn report_lists_the_models(usage: Usage, remaining: Seq<Option<Seq<char>>>, i: int)
    requires
        0 <= i < usage.models.len(),
        remaining.len() == usage.models.len(),
    ensures
        report(usage, remaining).len() == 5 + usage.models.len(),
        report(usage, remaining)[4] == (Line { lead: "  "@, dim: "models:"@, tail: ""@ }),
        ({
            let line = report(usage, remaining)[5 + i];
            let label = usage.models[i].label;
            let spaces: int = if label.len() < 34 {
                34 - label.len()
            } else {
                0
            };
            let left = match remaining[i] {
                Some(text) => text,
                None => "  ?"@,
            };
            &&& line.lead == "    - "@ + (label + Seq::new(spaces as nat, |j: int| ' ')) + " "@
                + left + " left  resets "@
            &&& line.dim == (match usage.models[i].reset_time {
                Some(text) => text,
                None => "-"@,
            })
            &&& line.tail == ""@
        }),
{
    let label = usage.models[i].label;
    let spaces: int = if label.len() < 34 {
        34 - label.len()
    } else {
        0
    };
    assert(padded(label, 34) =~= label + Seq::new(spaces as nat, |j: int| ' '));
    let line = report(usage, remaining)[5 + i];
    assert(line == model_line(usage.models[i], remaining[i]));
}

/// Without models nothing follows the credits.
pub proof fn report_without_models_ends_with_the_credits(
    usage: Usage,
    remaining: Seq<Option<Seq<char>>>,
)
    requires
        usage.models.len() == 0,
    ensures
        report(usage, remaining).len() == 4,
{
}

/// Lines and texts stand for what they hold, one by one.
pub proof fn lines_show_what_they_hold(
    lines: Seq<ReportLine>,
    texts: Seq<Option<String>>,
    i: int,
    j: int,
)
    requires
        0 <= i < lines.len(),
        0 <= j < texts.len(),
    ensures
        line_views(lines).len() == lines.len(),
        line_views(lines)[i].lead == lines[i].lead@,
        line_views(lines)[i].dim == lines[i].dim@,
        line_views(lines)[i].tail == lines[i].tail@,
        text_views(texts).len() == texts.len(),
        texts[j] matches Some(text) ==> text_views(texts)[j] == Some(text@),
        texts[j] is None ==> text_views(texts)[j] is None,
{
}

} // verus!
