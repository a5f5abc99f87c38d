//! How the steps of a run are shown, one line per step, with or without
//! terminal colours.
use vstd::prelude::*;

use crate::{step_view, steps_view, Satisfaction, Step, StepView};

verus! {

/// `s` wrapped in the escape sequence `open` and the reset sequence when
/// colour is on; `s` itself otherwise.
pub open spec fn paint(open: Seq<char>, s: Seq<char>, color: bool) -> Seq<char> {
    if color {
        open + s + "\x1b[0m"@
    } else {
        s
    }
}

pub open spec fn green(s: Seq<char>, color: bool) -> Seq<char> {
    paint("\x1b[32m"@, s, color)
}

pub open spec fn red(s: Seq<char>, color: bool) -> Seq<char> {
    paint("\x1b[31m"@, s, color)
}

pub open spec fn yellow(s: Seq<char>, color: bool) -> Seq<char> {
    paint("\x1b[33m"@, s, color)
}

pub open spec fn dim(s: Seq<char>, color: bool) -> Seq<char> {
    paint("\x1b[2m"@, s, color)
}

pub open spec fn bold(s: Seq<char>, color: bool) -> Seq<char> {
    paint("\x1b[1m"@, s, color)
}

pub open spec fn red_struck(s: Seq<char>, color: bool) -> Seq<char> {
    paint("\x1b[31;9m"@, s, color)
}

/// Whether a step's description is shown: when asked for, and always for
/// an unsatisfied target.
pub open spec fn shows_description(sat: Satisfaction, show_descriptions: bool) -> bool {
    show_descriptions || sat == Satisfaction::Unsatisfied
}

/// The line shown for one step: in a plan a yellow `(P)` first, then a
/// green tick or red cross, the name in bold, the description when shown
/// (red and struck through for an unsatisfied target, dimmed otherwise),
/// and the detail in brackets (dimmed, when there is one).
pub open spec fn step_line(s: StepView, is_plan: bool, show_descriptions: bool, color: bool) -> Seq<char> {
    let prefix = if is_plan {
        yellow("(P)"@, color) + " "@
    } else {
        Seq::empty()
    };
    let icon = match s.2 {
        Satisfaction::Satisfied => green("✓"@, color),
        Satisfaction::Unsatisfied => red("✗"@, color),
    };
    let desc = match s.1 {
        Some(d) => if !shows_description(s.2, show_descriptions) {
            Seq::empty()
        } else if s.2 == Satisfaction::Unsatisfied {
            "  "@ + red_struck(d, color)
        } else {
            "  "@ + dim(d, color)
        },
        None => Seq::empty(),
    };
    let detail = if s.3.len() == 0 {
        Seq::empty()
    } else {
        "  "@ + dim("("@ + s.3 + ")"@, color)
    };
    prefix + icon + " "@ + bold(s.0, color) + desc + detail
}

fn paint_into(out: &mut String, open: &str, s: &str, color: bool)
    ensures
        final(out)@ == old(out)@ + paint(open@, s@, color),
{
    if color {
        out.append(open);
        out.append(s);
        out.append("\x1b[0m");
    } else {
        out.append(s);
    }
}

/// Renders one step as a line of output (without the line break).
pub fn render_step(step: &Step, is_plan: bool, show_descriptions: bool, color: bool) -> (line: String)
    ensures
        line@ == step_line(step_view(*step), is_plan, show_descriptions, color),
{
    let mut line = String::new();
    if is_plan {
        paint_into(&mut line, "\x1b[33m", "(P)", color);
        line.append(" ");
    }
    match step.sat {
        Satisfaction::Satisfied => paint_into(&mut line, "\x1b[32m", "✓", color),
        Satisfaction::Unsatisfied => paint_into(&mut line, "\x1b[31m", "✗", color),
    }
    line.append(" ");
    paint_into(&mut line, "\x1b[1m", step.name.as_str(), color);
    match &step.description {
        Some(d) => {
            if step.sat == Satisfaction::Unsatisfied {
                line.append("  ");
                paint_into(&mut line, "\x1b[31;9m", d.as_str(), color);
            } else if show_descriptions {
                line.append("  ");
                paint_into(&mut line, "\x1b[2m", d.as_str(), color);
            }
        },
        None => {},
    }
    if step.detail.unicode_len() > 0 {
        let mut bracketed = String::new();
        bracketed.append("(");
        bracketed.append(step.detail.as_str());
        bracketed.append(")");
        line.append("  ");
        paint_into(&mut line, "\x1b[2m", bracketed.as_str(), color);
    }
    proof {
        assert(line@ =~= step_line(step_view(*step), is_plan, show_descriptions, color));
    }
    line
}

/// Renders every step, one line each, in order.
pub fn render_steps(steps: &[Step], is_plan: bool, show_descriptions: bool, color: bool) -> (lines: Vec<String>)
    ensures
        lines@.len() == steps@.len(),
        forall|i: int|
            0 <= i < lines@.len() ==> #[trigger] lines@[i]@ == step_line(
                steps_view(steps@)[i],
                is_plan,
                show_descriptions,
                color,
            ),
{
    let mut lines: Vec<String> = Vec::new();
    let mut i: usize = 0;
    while i < steps.len()
        invariant
            i <= steps@.len(),
            lines@.len() == i,
            forall|k: int|
                0 <= k < i ==> #[trigger] lines@[k]@ == step_line(
                    steps_view(steps@)[k],
                    is_plan,
                    show_descriptions,
                    color,
                ),
        decreases steps.len() - i,
    {
        let line = render_step(&steps[i], is_plan, show_descriptions, color);
        lines.push(line);
        i = i + 1;
    }
    lines
}

} // verus!
