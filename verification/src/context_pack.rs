//! Structured context pack: single-entry rendering with traceable trim and drop reasons.
//!
//! All prompt assembly goes through `ContextPack`. Each source (runtime, session
//! state, memories and so on) becomes an explicit section with observable metadata.

use crate::session_summary;
use crate::session_summary::summarize_for_markdown;
use crate::text;
use crate::text::{char_count, copy_strings, join_strings, owned, push_text};
use vstd::prelude::*;

verus! {

pub const DEFAULT_CONTEXT_MAX_TOTAL_CHARS: usize = 2600;

// ---------------------------------------------------------------------------
// Kinds and policies
// ---------------------------------------------------------------------------

/// Per-section budget and priority policy.
#[derive(Debug, Clone, Copy, PartialEq, Eq, Structural)]
pub struct ContextSectionPolicy {
    pub priority: u8,
    pub max_chars: usize,
    pub pinned_lines: usize,
    pub required: bool,
}

/// Types of context sections, ordered by semantic role.
#[derive(Debug, Clone, Copy, PartialEq, Eq, Structural)]
pub enum ContextSectionKind {
    Preamble,
    CurrentIntent,
    RuntimeContext,
    SessionState,
    SessionText,
    PreviousObservations,
    LatestObservation,
    RuntimePlan,
    CurrentTask,
    RecentTasks,
    UserMemories,
    ToolDescriptions,
    ResponseContract,
}

pub open spec fn kind_name(kind: ContextSectionKind) -> Seq<char> {
    match kind {
        ContextSectionKind::Preamble => "preamble"@,
        ContextSectionKind::CurrentIntent => "current_intent"@,
        ContextSectionKind::RuntimeContext => "runtime_context"@,
        ContextSectionKind::SessionState => "session_state"@,
        ContextSectionKind::SessionText => "session_text"@,
        ContextSectionKind::PreviousObservations => "previous_observations"@,
        ContextSectionKind::LatestObservation => "latest_observation"@,
        ContextSectionKind::RuntimePlan => "runtime_plan"@,
        ContextSectionKind::CurrentTask => "current_task"@,
        ContextSectionKind::RecentTasks => "recent_tasks"@,
        ContextSectionKind::UserMemories => "user_memories"@,
        ContextSectionKind::ToolDescriptions => "tool_descriptions"@,
        ContextSectionKind::ResponseContract => "response_contract"@,
    }
}

/// The policy with these values.
pub open spec fn policy_values(
    priority: u8,
    max_chars: usize,
    pinned_lines: usize,
    required: bool,
) -> ContextSectionPolicy {
    ContextSectionPolicy { priority, max_chars, pinned_lines, required }
}

/// Priority, character budget, pinned lines and whether the section must stay.
pub open spec fn kind_policy(kind: ContextSectionKind) -> ContextSectionPolicy {
    match kind {
        ContextSectionKind::Preamble => policy_values(100, 120, 1, true),
        ContextSectionKind::CurrentIntent => policy_values(100, 360, 3, true),
        ContextSectionKind::RuntimeContext => policy_values(95, 520, 10, true),
        ContextSectionKind::SessionState => policy_values(94, 560, 4, false),
        ContextSectionKind::SessionText => policy_values(55, 460, 6, false),
        ContextSectionKind::PreviousObservations => policy_values(70, 360, 2, false),
        ContextSectionKind::LatestObservation => policy_values(92, 560, 4, false),
        ContextSectionKind::RuntimePlan => policy_values(93, 520, 4, false),
        ContextSectionKind::CurrentTask => policy_values(94, 420, 5, false),
        ContextSectionKind::RecentTasks => policy_values(50, 300, 2, false),
        ContextSectionKind::UserMemories => policy_values(75, 420, 2, false),
        ContextSectionKind::ToolDescriptions => policy_values(40, 360, 2, true),
        ContextSectionKind::ResponseContract => policy_values(100, 260, 2, true),
    }
}

impl ContextSectionKind {
    pub fn as_str(&self) -> (r: &'static str)
        ensures
            r@ == kind_name(*self),
    {
        match self {
            ContextSectionKind::Preamble => "preamble",
            ContextSectionKind::CurrentIntent => "current_intent",
            ContextSectionKind::RuntimeContext => "runtime_context",
            ContextSectionKind::SessionState => "session_state",
            ContextSectionKind::SessionText => "session_text",
            ContextSectionKind::PreviousObservations => "previous_observations",
            ContextSectionKind::LatestObservation => "latest_observation",
            ContextSectionKind::RuntimePlan => "runtime_plan",
            ContextSectionKind::CurrentTask => "current_task",
            ContextSectionKind::RecentTasks => "recent_tasks",
            ContextSectionKind::UserMemories => "user_memories",
            ContextSectionKind::ToolDescriptions => "tool_descriptions",
            ContextSectionKind::ResponseContract => "response_contract",
        }
    }

    pub fn policy(&self) -> (r: ContextSectionPolicy)
        ensures
            r == kind_policy(*self),
    {
        match self {
            ContextSectionKind::Preamble => ContextSectionPolicy {
                priority: 100,
                max_chars: 120,
                pinned_lines: 1,
                required: true,
            },
            ContextSectionKind::CurrentIntent => ContextSectionPolicy {
                priority: 100,
                max_chars: 360,
                pinned_lines: 3,
                required: true,
            },
            ContextSectionKind::RuntimeContext => ContextSectionPolicy {
                priority: 95,
                max_chars: 520,
                pinned_lines: 10,
                required: true,
            },
            ContextSectionKind::SessionState => ContextSectionPolicy {
                priority: 94,
                max_chars: 560,
                pinned_lines: 4,
                required: false,
            },
            ContextSectionKind::SessionText => ContextSectionPolicy {
                priority: 55,
                max_chars: 460,
                pinned_lines: 6,
                required: false,
            },
            ContextSectionKind::PreviousObservations => ContextSectionPolicy {
                priority: 70,
                max_chars: 360,
                pinned_lines: 2,
                required: false,
            },
            ContextSectionKind::LatestObservation => ContextSectionPolicy {
                priority: 92,
                max_chars: 560,
                pinned_lines: 4,
                required: false,
            },
            ContextSectionKind::RuntimePlan => ContextSectionPolicy {
                priority: 93,
                max_chars: 520,
                pinned_lines: 4,
                required: false,
            },
            ContextSectionKind::CurrentTask => ContextSectionPolicy {
                priority: 94,
                max_chars: 420,
                pinned_lines: 5,
                required: false,
            },
            ContextSectionKind::RecentTasks => ContextSectionPolicy {
                priority: 50,
                max_chars: 300,
                pinned_lines: 2,
                required: false,
            },
            ContextSectionKind::UserMemories => ContextSectionPolicy {
                priority: 75,
                max_chars: 420,
                pinned_lines: 2,
                required: false,
            },
            ContextSectionKind::ToolDescriptions => ContextSectionPolicy {
                priority: 40,
                max_chars: 360,
                pinned_lines: 2,
                required: true,
            },
            ContextSectionKind::ResponseContract => ContextSectionPolicy {
                priority: 100,
                max_chars: 260,
                pinned_lines: 2,
                required: true,
            },
        }
    }
}

/// Reason for section-level trim or drop.
#[derive(Debug, Clone, Copy, PartialEq, Eq, Structural)]
pub enum ContextSectionChangeReason {
    SectionBudgetExceeded,
    TotalBudgetExceeded,
}

pub open spec fn reason_name(reason: ContextSectionChangeReason) -> Seq<char> {
    match reason {
        ContextSectionChangeReason::SectionBudgetExceeded => "section_budget_exceeded"@,
        ContextSectionChangeReason::TotalBudgetExceeded => "total_budget_exceeded"@,
    }
}

impl ContextSectionChangeReason {
    pub fn as_str(&self) -> (r: &'static str)
        ensures
            r@ == reason_name(*self),
    {
        match self {
            ContextSectionChangeReason::SectionBudgetExceeded => "section_budget_exceeded",
            ContextSectionChangeReason::TotalBudgetExceeded => "total_budget_exceeded",
        }
    }
}

// ---------------------------------------------------------------------------
// Trimming the lines of a section
// ---------------------------------------------------------------------------

/// The lines as one text.
pub open spec fn rendered_lines(lines: Seq<Seq<char>>) -> Seq<char> {
    text::join(lines, "\n"@)
}

/// The lines cut to `max_chars` characters: the pinned first lines stay where they
/// leave room, and the others become one summary line.
pub open spec fn trimmed_lines(
    lines: Seq<Seq<char>>,
    max_chars: int,
    pinned_lines: int,
) -> Seq<Seq<char>> {
    let rendered = rendered_lines(lines);
    let pinned = if pinned_lines < lines.len() {
        pinned_lines
    } else {
        lines.len() as int
    };
    let prefix = lines.take(pinned);
    let prefix_chars = rendered_lines(prefix).len();
    if rendered.len() <= max_chars {
        lines
    } else if max_chars < 48 || pinned == 0 || prefix_chars + 48 >= max_chars {
        seq![session_summary::summarized(rendered, max_chars)]
    } else {
        let body = rendered_lines(lines.skip(pinned));
        prefix.push("- trimmed: "@ + session_summary::summarized(body, max_chars - prefix_chars - 16))
    }
}

/// Trimmed lines fit their budget when rendered.
pub proof fn lemma_trimmed_lines_fit(lines: Seq<Seq<char>>, max_chars: int, pinned_lines: int)
    requires
        0 <= max_chars,
        0 <= pinned_lines,
    ensures
        rendered_lines(trimmed_lines(lines, max_chars, pinned_lines)).len() <= max_chars,
{
    let rendered = rendered_lines(lines);
    let pinned = if pinned_lines < lines.len() {
        pinned_lines
    } else {
        lines.len() as int
    };
    let prefix = lines.take(pinned);
    let prefix_chars = rendered_lines(prefix).len();
    session_summary::lemma_summarized_fits(rendered, max_chars);
    if rendered.len() <= max_chars {
    } else if max_chars < 48 || pinned == 0 || prefix_chars + 48 >= max_chars {
        assert(rendered_lines(trimmed_lines(lines, max_chars, pinned_lines)) == session_summary::summarized(
            rendered,
            max_chars,
        ));
    } else {
        let body = rendered_lines(lines.skip(pinned));
        let room = max_chars - prefix_chars - 16;
        session_summary::lemma_summarized_fits(body, room);
        reveal_strlit("\n");
        reveal_strlit("- trimmed: ");
        text::lemma_join_push(prefix, "- trimmed: "@ + session_summary::summarized(body, room), "\n"@);
    }
}

/// A text begins with a part that is not empty of another text.
pub open spec fn begins_with_some_of(r: Seq<char>, s: Seq<char>) -> bool {
    exists|n: int| 0 < n <= s.len() && text::starts_with(r, #[trigger] s.take(n))
}

proof fn lemma_summary_begins(s: Seq<char>, max_chars: int)
    requires
        0 < max_chars,
        s.len() > 0,
    ensures
        begins_with_some_of(session_summary::summarized(s, max_chars), s),
{
    let r = session_summary::summarized(s, max_chars);
    if s.len() <= max_chars {
        assert(s.take(s.len() as int) =~= s);
        assert(r.subrange(0, s.len() as int) =~= s);
        assert(text::starts_with(r, s.take(s.len() as int)));
    } else {
        session_summary::lemma_summarized_is_a_head(s, max_chars);
        let notice = "\n\n...[truncated, total_chars="@ + text::decimal(s.len()) + "]"@;
        if notice.len() >= max_chars {
            assert(r.subrange(0, max_chars) =~= s.take(max_chars));
            assert(text::starts_with(r, s.take(max_chars)));
        } else {
            let n = choose|n: int|
                #![trigger s.take(n)]
                0 < n <= max_chars - notice.len() && r == s.take(n) + notice;
            assert(r.subrange(0, n) =~= s.take(n));
            assert(text::starts_with(r, s.take(n)));
        }
    }
}

/// What trimming keeps. Lines that fit stay as they are. Otherwise the pinned lines stay, each
/// as it was, where at least forty-eight characters are left beside them, and one line more
/// follows: it tells how the lines behind the pinned ones begin. Where there is no such room
/// one line is left, which tells how all the lines begin.
pub proof fn lemma_trimming_tells_what_was_cut(
    lines: Seq<Seq<char>>,
    max_chars: int,
    pinned_lines: int,
)
    requires
        0 < max_chars,
        0 <= pinned_lines,
    ensures
        text::join(lines, "\n"@).len() <= max_chars ==> trimmed_lines(lines, max_chars, pinned_lines)
            == lines,
        text::join(lines, "\n"@).len() > max_chars ==> {
            let r = trimmed_lines(lines, max_chars, pinned_lines);
            let room_beside = 0 < pinned_lines < lines.len() && text::join(
                lines.take(pinned_lines),
                "\n"@,
            ).len() + 48 < max_chars;
            if room_beside {
                &&& r.len() == pinned_lines + 1
                &&& forall|i: int| 0 <= i < pinned_lines ==> #[trigger] r[i] == lines[i]
                &&& text::starts_with(r[pinned_lines], "- trimmed: "@)
                &&& begins_with_some_of(
                    r[pinned_lines].skip("- trimmed: "@.len() as int),
                    text::join(lines.skip(pinned_lines), "\n"@),
                )
            } else {
                r.len() == 1 && begins_with_some_of(r[0], text::join(lines, "\n"@))
            }
        },
{
    reveal_strlit("\n");
    let all = rendered_lines(lines);
    if all.len() > max_chars {
        lemma_summary_begins(all, max_chars);
        if pinned_lines >= lines.len() {
            assert(lines.take(lines.len() as int) =~= lines);
        } else if 0 < pinned_lines {
            let head = lines.take(pinned_lines);
            let tail = lines.skip(pinned_lines);
            assert(head + tail =~= lines);
            text::lemma_join_concat(head, tail, "\n"@);
            let room = max_chars - rendered_lines(head).len() - 16;
            if rendered_lines(head).len() + 48 < max_chars {
                lemma_summary_begins(rendered_lines(tail), room);
                let told = session_summary::summarized(rendered_lines(tail), room);
                let line = "- trimmed: "@ + told;
                let n = "- trimmed: "@.len() as int;
                assert(line.subrange(0, n) =~= "- trimmed: "@);
                assert(line.skip(n) =~= told);
                let r = trimmed_lines(lines, max_chars, pinned_lines);
                assert(r[pinned_lines] == line);
            }
        }
    }
}

/// Trim lines to fit within max_chars while preserving pinned prefix lines.
pub fn trim_section_lines(lines: &[String], max_chars: usize, pinned_lines: usize) -> (r: Vec<
    String,
>)
    ensures
        text::texts(r@) == trimmed_lines(text::texts(lines@), max_chars as int, pinned_lines as int),
        rendered_lines(text::texts(r@)).len() <= max_chars,
{
    proof {
        lemma_trimmed_lines_fit(text::texts(lines@), max_chars as int, pinned_lines as int);
    }
    let rendered = join_strings(lines, "\n");
    let total: usize = lines.len();
    if char_count(rendered.as_str()) <= max_chars {
        let all = copy_strings(lines, 0, total);
        proof {
            assert(all@ =~= lines@);
        }
        return all;
    }
    let pinned: usize = if pinned_lines < total {
        pinned_lines
    } else {
        total
    };
    let prefix = copy_strings(lines, 0, pinned);
    proof {
        assert(text::texts(prefix@) =~= text::texts(lines@).take(pinned as int));
    }
    let prefix_rendered = join_strings(prefix.as_slice(), "\n");
    let prefix_chars: usize = char_count(prefix_rendered.as_str());
    if max_chars < 48 || pinned == 0 || prefix_chars >= max_chars - 48 {
        let mut one: Vec<String> = Vec::new();
        let summary = summarize_for_markdown(rendered.as_str(), max_chars);
        one.push(summary);
        proof {
            assert(text::texts(one@) =~= seq![session_summary::summarized(rendered@, max_chars as int)]);
        }
        return one;
    }
    let rest = copy_strings(lines, pinned, total);
    proof {
        assert(text::texts(rest@) =~= text::texts(lines@).skip(pinned as int));
    }
    let body = join_strings(rest.as_slice(), "\n");
    let room: usize = max_chars - prefix_chars - 16;
    let body_summary = summarize_for_markdown(body.as_str(), room);
    let mut line = "- trimmed: ".to_string();
    line.append(body_summary.as_str());
    let mut out = prefix;
    push_text(&mut out, line.as_str());
    out
}

// ---------------------------------------------------------------------------
// Sections
// ---------------------------------------------------------------------------

/// A single context section with its own budget and priority policy.
#[derive(Debug, Clone)]
pub struct ContextSection {
    pub kind: ContextSectionKind,
    pub lines: Vec<String>,
    pub policy: ContextSectionPolicy,
    pub original_content: String,
    pub trimmed: bool,
    pub trim_reason: Option<ContextSectionChangeReason>,
    pub included: bool,
    pub drop_reason: Option<ContextSectionChangeReason>,
}

/// The text of a section.
pub open spec fn section_text(s: ContextSection) -> Seq<char> {
    rendered_lines(text::texts(s.lines@))
}

/// The characters that a section adds to the prompt.
pub open spec fn section_chars(s: ContextSection) -> nat {
    if s.included {
        section_text(s).len()
    } else {
        0
    }
}

/// The section taken out of the prompt.
pub open spec fn dropped(s: ContextSection, reason: ContextSectionChangeReason) -> ContextSection {
    ContextSection { included: false, drop_reason: Some(reason), ..s }
}

/// The section keeps to the budget of its policy.
pub open spec fn within_budget(s: ContextSection) -> bool {
    section_text(s).len() <= s.policy.max_chars
}

impl ContextSection {
    /// A section has a reason to be left out just where it is left out.
    pub open spec fn wf(&self) -> bool {
        self.included == (self.drop_reason is None)
    }

    pub fn new(kind: ContextSectionKind, lines: Vec<String>) -> (r: Self)
        ensures
            r.wf(),
            r.kind == kind,
            r.policy == kind_policy(kind),
            r.original_content@ == rendered_lines(text::texts(lines@)),
            r.included,
            r.drop_reason is None,
            r.trimmed == (rendered_lines(text::texts(lines@)).len() > kind_policy(kind).max_chars),
            r.trim_reason == (if r.trimmed {
                Some(ContextSectionChangeReason::SectionBudgetExceeded)
            } else {
                None
            }),
            text::texts(r.lines@) == trimmed_lines(
                text::texts(lines@),
                kind_policy(kind).max_chars as int,
                kind_policy(kind).pinned_lines as int,
            ),
            within_budget(r),
    {
        let original_content = join_strings(lines.as_slice(), "\n");
        let policy = kind.policy();
        let mut section = ContextSection {
            kind,
            lines,
            policy,
            original_content,
            trimmed: false,
            trim_reason: None,
            included: true,
            drop_reason: None,
        };
        section.apply_section_budget();
        section
    }

    pub fn render(&self) -> (r: String)
        ensures
            r@ == section_text(*self),
    {
        join_strings(self.lines.as_slice(), "\n")
    }

    pub fn char_count(&self) -> (r: usize)
        ensures
            r == section_chars(*self),
    {
        if self.included {
            let t = self.render();
            char_count(t.as_str())
        } else {
            0
        }
    }

    pub fn original_char_count(&self) -> (r: usize)
        ensures
            r == self.original_content@.len(),
    {
        char_count(self.original_content.as_str())
    }

    /// The number of lines that are not empty.
    pub fn item_count(&self) -> (r: usize)
        ensures
            r == section_items(*self),
    {
        if !self.included {
            return 0;
        }
        let mut n: usize = 0;
        let mut i: usize = 0;
        proof {
            reveal(Seq::filter);
            assert(text::texts(self.lines@).take(0).filter(|l: Seq<char>| l.len() > 0).len() == 0);
        }
        while i < self.lines.len()
            invariant
                i <= self.lines.len(),
                n <= i,
                n == text::texts(self.lines@).take(i as int).filter(|l: Seq<char>| l.len() > 0).len(),
            decreases self.lines.len() - i,
        {
            proof {
                reveal(Seq::filter);
                text::lemma_texts_take_next(self.lines@, i as int);
            }
            if !self.lines[i].as_str().is_empty() {
                n = n + 1;
            }
            i = i + 1;
        }
        proof {
            assert(text::texts(self.lines@).take(i as int) =~= text::texts(self.lines@));
        }
        n
    }

    pub fn line_count(&self) -> (r: usize)
        ensures
            r == (if self.included {
                self.lines@.len()
            } else {
                0
            }),
    {
        if self.included {
            self.lines.len()
        } else {
            0
        }
    }

    pub fn kind(&self) -> (r: &ContextSectionKind)
        ensures
            *r == self.kind,
    {
        &self.kind
    }

    pub fn lines(&self) -> (r: &[String])
        ensures
            r@ == self.lines@,
    {
        self.lines.as_slice()
    }

    pub fn trimmed(&self) -> (r: bool)
        ensures
            r == self.trimmed,
    {
        self.trimmed
    }

    pub fn included(&self) -> (r: bool)
        ensures
            r == self.included,
    {
        self.included
    }

    /// The text of an included section; of a dropped one, a summary of what it held.
    pub fn content_for_snapshot(&self) -> (r: String)
        ensures
            r@ == snapshot_content(*self),
    {
        if self.included {
            self.render()
        } else {
            summarize_for_markdown(self.original_content.as_str(), 240)
        }
    }

    pub fn drop_from_prompt(&mut self, reason: ContextSectionChangeReason)
        ensures
            *final(self) == dropped(*old(self), reason),
            final(self).wf(),
    {
        self.included = false;
        self.drop_reason = Some(reason);
    }

    fn apply_section_budget(&mut self)
        requires
            old(self).original_content@ == section_text(*old(self)),
            !old(self).trimmed,
            old(self).trim_reason is None,
        ensures
            final(self).kind == old(self).kind,
            final(self).policy == old(self).policy,
            final(self).original_content == old(self).original_content,
            final(self).included == old(self).included,
            final(self).drop_reason == old(self).drop_reason,
            final(self).trimmed == (section_text(*old(self)).len() > old(self).policy.max_chars),
            final(self).trim_reason == (if final(self).trimmed {
                Some(ContextSectionChangeReason::SectionBudgetExceeded)
            } else {
                None
            }),
            text::texts(final(self).lines@) == trimmed_lines(
                text::texts(old(self).lines@),
                old(self).policy.max_chars as int,
                old(self).policy.pinned_lines as int,
            ),
            within_budget(*final(self)),
    {
        if self.original_char_count() <= self.policy.max_chars {
            return ;
        }
        self.trimmed = true;
        self.trim_reason = Some(ContextSectionChangeReason::SectionBudgetExceeded);
        self.lines = trim_section_lines(
            self.lines.as_slice(),
            self.policy.max_chars,
            self.policy.pinned_lines,
        );
    }
}

pub open spec fn section_items(s: ContextSection) -> nat {
    if s.included {
        text::texts(s.lines@).filter(|l: Seq<char>| l.len() > 0).len()
    } else {
        0
    }
}

pub open spec fn snapshot_content(s: ContextSection) -> Seq<char> {
    if s.included {
        section_text(s)
    } else {
        session_summary::summarized(s.original_content@, 240)
    }
}

// ---------------------------------------------------------------------------
// The pack
// ---------------------------------------------------------------------------

/// A full context pack composed of sections, with total budget enforcement.
#[derive(Debug, Clone)]
pub struct ContextPack {
    pub sections: Vec<ContextSection>,
    pub max_total_chars: usize,
}

/// The characters of all sections together.
pub open spec fn total_of(sections: Seq<ContextSection>) -> nat
    decreases sections.len(),
{
    if sections.len() == 0 {
        0
    } else {
        total_of(sections.drop_last()) + section_chars(sections.last())
    }
}

/// The lines of the included sections, in order.
pub open spec fn included_lines(sections: Seq<ContextSection>) -> Seq<Seq<char>>
    decreases sections.len(),
{
    if sections.len() == 0 {
        Seq::empty()
    } else if sections.last().included {
        included_lines(sections.drop_last()) + text::texts(sections.last().lines@)
    } else {
        included_lines(sections.drop_last())
    }
}

pub open spec fn droppable(s: ContextSection) -> bool {
    s.included && !s.policy.required
}

/// `a` is to be dropped rather than `b`: a lower priority, or the same and longer.
pub open spec fn drops_before(a: ContextSection, b: ContextSection) -> bool {
    a.policy.priority < b.policy.priority || (a.policy.priority == b.policy.priority
        && section_chars(a) > section_chars(b))
}

/// The section to drop next among the first `k`: the first one that no other is
/// to be dropped before.
pub open spec fn next_drop(sections: Seq<ContextSection>, k: nat) -> Option<int>
    decreases k,
{
    if k == 0 {
        None
    } else {
        let best = next_drop(sections, (k - 1) as nat);
        let s = sections[k - 1];
        if !droppable(s) {
            best
        } else {
            match best {
                None => Some(k - 1),
                Some(i) => if drops_before(s, sections[i]) {
                    Some(k - 1)
                } else {
                    Some(i)
                },
            }
        }
    }
}

/// How many of the first `k` sections could still be dropped.
pub open spec fn droppable_count(sections: Seq<ContextSection>) -> nat {
    sections.filter(|s: ContextSection| droppable(s)).len()
}

/// The sections after the total budget was applied: while they are too long
/// together, the next droppable section leaves the prompt.
pub open spec fn budgeted(sections: Seq<ContextSection>, max_total: int) -> Seq<ContextSection>
    decreases total_of(sections), droppable_count(sections),
    via budgeted_decreases
{
    if total_of(sections) <= max_total {
        sections
    } else {
        match next_drop(sections, sections.len()) {
            None => sections,
            Some(i) => budgeted(
                sections.update(
                    i,
                    dropped(sections[i], ContextSectionChangeReason::TotalBudgetExceeded),
                ),
                max_total,
            ),
        }
    }
}

proof fn lemma_next_drop(sections: Seq<ContextSection>, k: nat)
    requires
        k <= sections.len(),
    ensures
        match next_drop(sections, k) {
            Some(i) => 0 <= i < k && droppable(sections[i]) && forall|j: int|
                0 <= j < k && droppable(#[trigger] sections[j]) ==> !drops_before(
                    sections[j],
                    sections[i],
                ),
            None => forall|j: int| 0 <= j < k ==> !droppable(#[trigger] sections[j]),
        },
    decreases k,
{
    if k > 0 {
        lemma_next_drop(sections, (k - 1) as nat);
    }
}

proof fn lemma_total_update(sections: Seq<ContextSection>, i: int, s: ContextSection)
    requires
        0 <= i < sections.len(),
    ensures
        total_of(sections.update(i, s)) == total_of(sections) - section_chars(sections[i])
            + section_chars(s),
    decreases sections.len(),
{
    if i == sections.len() - 1 {
        assert(sections.update(i, s).drop_last() =~= sections.drop_last());
    } else {
        lemma_total_update(sections.drop_last(), i, s);
        assert(sections.update(i, s).drop_last() =~= sections.drop_last().update(i, s));
    }
}

proof fn lemma_count_update(sections: Seq<ContextSection>, i: int, s: ContextSection)
    requires
        0 <= i < sections.len(),
        droppable(sections[i]),
        !droppable(s),
    ensures
        droppable_count(sections.update(i, s)) == droppable_count(sections) - 1,
    decreases sections.len(),
{
    reveal(Seq::filter);
    if i == sections.len() - 1 {
        assert(sections.update(i, s).drop_last() =~= sections.drop_last());
    } else {
        lemma_count_update(sections.drop_last(), i, s);
        assert(sections.update(i, s).drop_last() =~= sections.drop_last().update(i, s));
    }
}

#[via_fn]
proof fn budgeted_decreases(sections: Seq<ContextSection>, max_total: int) {
    if total_of(sections) > max_total {
        lemma_next_drop(sections, sections.len());
        match next_drop(sections, sections.len()) {
            None => {},
            Some(i) => {
                let s = dropped(sections[i], ContextSectionChangeReason::TotalBudgetExceeded);
                lemma_total_update(sections, i, s);
                lemma_count_update(sections, i, s);
            },
        }
    }
}

/// What the total budget promises: the pack fits or nothing more can be dropped;
/// every section is as it was, or it was droppable and left the prompt for the
/// total budget. So a required section is never dropped.
pub proof fn lemma_budgeted(sections: Seq<ContextSection>, max_total: int)
    ensures
        ({
            let out = budgeted(sections, max_total);
            &&& out.len() == sections.len()
            &&& total_of(out) <= max_total || forall|j: int|
                0 <= j < out.len() ==> !droppable(#[trigger] out[j])
            &&& forall|j: int|
                0 <= j < out.len() ==> (#[trigger] out[j] == sections[j] || (droppable(sections[j])
                    && out[j] == dropped(
                    sections[j],
                    ContextSectionChangeReason::TotalBudgetExceeded,
                )))
            &&& total_of(out) <= total_of(sections)
        }),
    decreases total_of(sections), droppable_count(sections),
{
    if total_of(sections) > max_total {
        lemma_next_drop(sections, sections.len());
        match next_drop(sections, sections.len()) {
            None => {},
            Some(i) => {
                let s = dropped(sections[i], ContextSectionChangeReason::TotalBudgetExceeded);
                lemma_total_update(sections, i, s);
                lemma_count_update(sections, i, s);
                lemma_budgeted(sections.update(i, s), max_total);
            },
        }
    }
}

/// A pack that fits is left as it is.
pub proof fn lemma_budgeted_identity(sections: Seq<ContextSection>, max_total: int)
    requires
        total_of(sections) <= max_total,
    ensures
        budgeted(sections, max_total) == sections,
{
}

/// The section that the total budget drops first has the lowest priority of all
/// that could be dropped.
pub proof fn lemma_lowest_priority_first(sections: Seq<ContextSection>, j: int)
    requires
        0 <= j < sections.len(),
        droppable(sections[j]),
    ensures
        next_drop(sections, sections.len()) matches Some(i) && 0 <= i < sections.len()
            && sections[i].policy.priority <= sections[j].policy.priority,
        next_drop(sections, sections.len()) matches Some(i) && (sections[i].policy.priority
            == sections[j].policy.priority ==> section_text(sections[i]).len() >= section_text(
            sections[j],
        ).len()),
        next_drop(sections, sections.len()) matches Some(i) && droppable(sections[i]),
{
    lemma_next_drop(sections, sections.len());
}

/// Summary of overall budget usage.
#[derive(Debug, Clone, Copy, PartialEq, Eq, Structural)]
pub struct ContextBudgetSummary {
    pub max_total_chars: usize,
    pub final_total_chars: usize,
    pub trimmed_section_count: usize,
    pub dropped_section_count: usize,
}

/// Snapshot of a section for trace and preview.
#[derive(Debug, Clone, PartialEq, Eq)]
pub struct ContextSectionSnapshot {
    pub kind: String,
    pub priority: u8,
    pub max_chars: usize,
    pub original_char_count: usize,
    pub line_count: usize,
    pub item_count: usize,
    pub char_count: usize,
    pub included: bool,
    pub trimmed: bool,
    pub trim_reason: Option<ContextSectionChangeReason>,
    pub drop_reason: Option<ContextSectionChangeReason>,
    pub content: String,
}

/// `shot` records section `s`.
pub open spec fn records(shot: ContextSectionSnapshot, s: ContextSection) -> bool {
    &&& shot.kind@ == kind_name(s.kind)
    &&& shot.priority == s.policy.priority
    &&& shot.max_chars == s.policy.max_chars
    &&& shot.original_char_count == s.original_content@.len()
    &&& shot.line_count == (if s.included {
        s.lines@.len()
    } else {
        0
    })
    &&& shot.item_count == section_items(s)
    &&& shot.char_count == section_chars(s)
    &&& shot.included == s.included
    &&& shot.trimmed == s.trimmed
    &&& shot.trim_reason == s.trim_reason
    &&& shot.drop_reason == s.drop_reason
    &&& shot.content@ == snapshot_content(s)
}

/// The names of the drop reasons of the sections that are not included.
pub open spec fn drop_reason_names(sections: Seq<ContextSection>) -> Seq<Seq<char>>
    decreases sections.len(),
{
    if sections.len() == 0 {
        Seq::empty()
    } else {
        let before = drop_reason_names(sections.drop_last());
        match sections.last().drop_reason {
            Some(reason) => if sections.last().included {
                before
            } else {
                before.push(reason_name(reason))
            },
            None => before,
        }
    }
}

/// Every section that is left out has a reason, and no other has one.
pub open spec fn reasons_given(sections: Seq<ContextSection>) -> bool {
    forall|i: int| 0 <= i < sections.len() ==> (#[trigger] sections[i]).wf()
}

impl ContextPack {
    /// Every section that is left out has a reason, and no other has one.
    pub open spec fn wf(&self) -> bool {
        reasons_given(self.sections@)
    }

    pub fn new() -> (r: Self)
        ensures
            r.wf(),
            r.sections@.len() == 0,
            r.max_total_chars == DEFAULT_CONTEXT_MAX_TOTAL_CHARS,
    {
        ContextPack { sections: Vec::new(), max_total_chars: DEFAULT_CONTEXT_MAX_TOTAL_CHARS }
    }

    pub fn with_max_total_chars(self, max_total_chars: usize) -> (r: Self)
        ensures
            r.sections == self.sections,
            r.max_total_chars == max_total_chars,
    {
        ContextPack { sections: self.sections, max_total_chars }
    }

    pub fn set_max_total_chars(&mut self, max_total_chars: usize)
        ensures
            final(self).sections == old(self).sections,
            final(self).max_total_chars == max_total_chars,
    {
        self.max_total_chars = max_total_chars;
    }

    pub fn push(&mut self, section: ContextSection)
        ensures
            final(self).sections@ == old(self).sections@.push(section),
            old(self).wf() && section.wf() ==> final(self).wf(),
            final(self).max_total_chars == old(self).max_total_chars,
    {
        self.sections.push(section);
    }

    /// The first section of the kind.
    pub fn section(&self, kind: ContextSectionKind) -> (r: Option<&ContextSection>)
        ensures
            match r {
                Some(s) => exists|i: int|
                    0 <= i < self.sections@.len() && *s == #[trigger] self.sections@[i] && s.kind
                        == kind && forall|j: int|
                        0 <= j < i ==> (#[trigger] self.sections@[j]).kind != kind,
                None => forall|j: int|
                    0 <= j < self.sections@.len() ==> (#[trigger] self.sections@[j]).kind != kind,
            },
    {
        let mut i: usize = 0;
        while i < self.sections.len()
            invariant
                i <= self.sections.len(),
                forall|j: int| 0 <= j < i ==> (#[trigger] self.sections@[j]).kind != kind,
            decreases self.sections.len() - i,
        {
            if self.sections[i].kind == kind {
                return Some(&self.sections[i]);
            }
            i = i + 1;
        }
        None
    }

    /// Render included sections into a single prompt string.
    pub fn render(&self) -> (r: String)
        ensures
            r@ == rendered_lines(included_lines(self.sections@)),
    {
        let mut rendered: Vec<String> = Vec::new();
        let mut i: usize = 0;
        proof {
            assert(text::texts(rendered@) =~= included_lines(self.sections@.take(0)));
        }
        while i < self.sections.len()
            invariant
                i <= self.sections.len(),
                text::texts(rendered@) == included_lines(self.sections@.take(i as int)),
            decreases self.sections.len() - i,
        {
            let ghost before = text::texts(rendered@);
            let section = &self.sections[i];
            proof {
                assert(self.sections@.take(i + 1).drop_last() =~= self.sections@.take(i as int));
                assert(before + text::texts(section.lines@).take(0) =~= before);
            }
            if section.included {
                let mut k: usize = 0;
                while k < section.lines.len()
                    invariant
                        k <= section.lines.len(),
                        text::texts(rendered@) == before + text::texts(section.lines@).take(k as int),
                    decreases section.lines.len() - k,
                {
                    push_text(&mut rendered, section.lines[k].as_str());
                    proof {
                        text::lemma_texts_take_next(section.lines@, k as int);
                        assert(text::texts(rendered@) =~= before + text::texts(section.lines@).take(k + 1));
                    }
                    k = k + 1;
                }
                proof {
                    assert(text::texts(section.lines@).take(k as int) =~= text::texts(section.lines@));
                }
            }
            i = i + 1;
        }
        proof {
            assert(self.sections@.take(i as int) =~= self.sections@);
        }
        join_strings(rendered.as_slice(), "\n")
    }

    pub fn total_chars(&self) -> (r: usize)
        requires
            total_of(self.sections@) <= usize::MAX,
        ensures
            r == total_of(self.sections@),
    {
        let mut sum: usize = 0;
        let mut i: usize = 0;
        while i < self.sections.len()
            invariant
                i <= self.sections.len(),
                total_of(self.sections@) <= usize::MAX,
                sum == total_of(self.sections@.take(i as int)),
            decreases self.sections.len() - i,
        {
            proof {
                assert(self.sections@.take(i + 1).drop_last() =~= self.sections@.take(i as int));
                lemma_total_take(self.sections@, i + 1);
            }
            sum = sum + self.sections[i].char_count();
            i = i + 1;
        }
        proof {
            assert(self.sections@.take(i as int) =~= self.sections@);
        }
        sum
    }

    fn find_next_drop(&self) -> (r: Option<usize>)
        ensures
            match r {
                Some(i) => next_drop(self.sections@, self.sections@.len()) == Some(i as int) && i
                    < self.sections@.len(),
                None => next_drop(self.sections@, self.sections@.len()) is None,
            },
    {
        let mut best: Option<usize> = None;
        let mut k: usize = 0;
        while k < self.sections.len()
            invariant
                k <= self.sections.len(),
                match best {
                    Some(i) => next_drop(self.sections@, k as nat) == Some(i as int) && i < k,
                    None => next_drop(self.sections@, k as nat) is None,
                },
            decreases self.sections.len() - k,
        {
            let s = &self.sections[k];
            if s.included && !s.policy.required {
                best = match best {
                    None => Some(k),
                    Some(i) => {
                        let b = &self.sections[i];
                        if s.policy.priority < b.policy.priority || (s.policy.priority
                            == b.policy.priority && s.char_count() > b.char_count()) {
                            Some(k)
                        } else {
                            Some(i)
                        }
                    },
                };
            }
            k = k + 1;
        }
        best
    }

    /// Apply total budget by dropping lowest-priority non-required sections.
    pub fn apply_total_budget(&mut self)
        requires
            total_of(old(self).sections@) <= usize::MAX,
        ensures
            final(self).sections@ == budgeted(
                old(self).sections@,
                old(self).max_total_chars as int,
            ),
            final(self).max_total_chars == old(self).max_total_chars,
            old(self).wf() ==> final(self).wf(),
    {
        proof {
            lemma_budgeted(self.sections@, self.max_total_chars as int);
        }
        let ghost goal = budgeted(self.sections@, self.max_total_chars as int);
        loop
            invariant
                total_of(self.sections@) <= usize::MAX,
                budgeted(self.sections@, self.max_total_chars as int) == goal,
                self.max_total_chars == old(self).max_total_chars,
            ensures
                self.sections@ == goal,
                self.max_total_chars == old(self).max_total_chars,
            decreases droppable_count(self.sections@),
        {
            if self.total_chars() <= self.max_total_chars {
                break ;
            }
            match self.find_next_drop() {
                None => {
                    break ;
                },
                Some(i) => {
                    proof {
                        let s = dropped(
                            self.sections@[i as int],
                            ContextSectionChangeReason::TotalBudgetExceeded,
                        );
                        lemma_next_drop(self.sections@, self.sections@.len());
                        lemma_total_update(self.sections@, i as int, s);
                        lemma_count_update(self.sections@, i as int, s);
                    }
                    self.sections[i].drop_from_prompt(
                        ContextSectionChangeReason::TotalBudgetExceeded,
                    );
                },
            }
        }
    }

    pub fn budget_summary(&self) -> (r: ContextBudgetSummary)
        requires
            total_of(self.sections@) <= usize::MAX,
        ensures
            r.max_total_chars == self.max_total_chars,
            r.final_total_chars == total_of(self.sections@),
            r.trimmed_section_count == self.sections@.filter(|s: ContextSection| s.trimmed).len(),
            r.dropped_section_count == self.sections@.filter(
                |s: ContextSection| !s.included,
            ).len(),
            self.wf() ==> r.dropped_section_count == drop_reason_names(self.sections@).len(),
    {
        proof {
            if self.wf() {
                lemma_reasons_counted(self.sections@);
            }
        }
        let final_total_chars: usize = self.total_chars();
        let mut trimmed_section_count: usize = 0;
        let mut dropped_section_count: usize = 0;
        let mut i: usize = 0;
        proof {
            reveal(Seq::filter);
        }
        while i < self.sections.len()
            invariant
                i <= self.sections.len(),
                trimmed_section_count <= i,
                dropped_section_count <= i,
                trimmed_section_count == self.sections@.take(i as int).filter(
                    |s: ContextSection| s.trimmed,
                ).len(),
                dropped_section_count == self.sections@.take(i as int).filter(
                    |s: ContextSection| !s.included,
                ).len(),
            decreases self.sections.len() - i,
        {
            proof {
                reveal(Seq::filter);
                assert(self.sections@.take(i + 1).drop_last() =~= self.sections@.take(i as int));
            }
            if self.sections[i].trimmed {
                trimmed_section_count = trimmed_section_count + 1;
            }
            if !self.sections[i].included {
                dropped_section_count = dropped_section_count + 1;
            }
            i = i + 1;
        }
        proof {
            assert(self.sections@.take(i as int) =~= self.sections@);
        }
        ContextBudgetSummary {
            max_total_chars: self.max_total_chars,
            final_total_chars,
            trimmed_section_count,
            dropped_section_count,
        }
    }

    pub fn snapshot(&self) -> (r: Vec<ContextSectionSnapshot>)
        ensures
            all_recorded(r@, self.sections@),
    {
        let mut out: Vec<ContextSectionSnapshot> = Vec::new();
        let mut i: usize = 0;
        while i < self.sections.len()
            invariant
                i <= self.sections.len(),
                out@.len() == i,
                forall|k: int| 0 <= k < i ==> records(#[trigger] out@[k], self.sections@[k]),
            decreases self.sections.len() - i,
        {
            let section = &self.sections[i];
            out.push(
                ContextSectionSnapshot {
                    kind: owned(section.kind.as_str()),
                    priority: section.policy.priority,
                    max_chars: section.policy.max_chars,
                    original_char_count: section.original_char_count(),
                    line_count: section.line_count(),
                    item_count: section.item_count(),
                    char_count: section.char_count(),
                    included: section.included,
                    trimmed: section.trimmed,
                    trim_reason: section.trim_reason,
                    drop_reason: section.drop_reason,
                    content: section.content_for_snapshot(),
                },
            );
            i = i + 1;
        }
        out
    }

    /// Collect all drop reasons from dropped sections.
    pub fn drop_reasons(&self) -> (r: Vec<String>)
        ensures
            text::texts(r@) == drop_reason_names(self.sections@),
    {
        let mut out: Vec<String> = Vec::new();
        let mut i: usize = 0;
        proof {
            assert(text::texts(out@) =~= drop_reason_names(self.sections@.take(0)));
        }
        while i < self.sections.len()
            invariant
                i <= self.sections.len(),
                text::texts(out@) == drop_reason_names(self.sections@.take(i as int)),
            decreases self.sections.len() - i,
        {
            proof {
                assert(self.sections@.take(i + 1).drop_last() =~= self.sections@.take(i as int));
            }
            if !self.sections[i].included {
                if let Some(reason) = self.sections[i].drop_reason {
                    push_text(&mut out, reason.as_str());
                }
            }
            i = i + 1;
        }
        proof {
            assert(self.sections@.take(i as int) =~= self.sections@);
        }
        out
    }

    pub fn section_count(&self) -> (r: usize)
        ensures
            r == self.sections@.len(),
    {
        self.sections.len()
    }
}

proof fn lemma_total_take(sections: Seq<ContextSection>, k: int)
    requires
        0 <= k <= sections.len(),
    ensures
        total_of(sections.take(k)) <= total_of(sections),
    decreases sections.len() - k,
{
    if k == sections.len() {
        assert(sections.take(k) =~= sections);
    } else {
        lemma_total_take(sections, k + 1);
        assert(sections.take(k + 1).drop_last() =~= sections.take(k));
    }
}

impl Default for ContextPack {
    fn default() -> (r: Self)
        ensures
            r.wf(),
            r.sections@.len() == 0,
            r.max_total_chars == DEFAULT_CONTEXT_MAX_TOTAL_CHARS,
    {
        ContextPack::new()
    }
}

/// Render prompt string from a context pack (single-entry API).
pub fn render_prompt_from_context_pack(pack: &ContextPack) -> (r: String)
    ensures
        r@ == rendered_lines(included_lines(pack.sections@)),
{
    pack.render()
}

proof fn lemma_reasons_counted(sections: Seq<ContextSection>)
    requires
        reasons_given(sections),
    ensures
        sections.filter(|s: ContextSection| !s.included).len() == drop_reason_names(sections).len(),
    decreases sections.len(),
{
    reveal(Seq::filter);
    if sections.len() > 0 {
        let a = sections.drop_last();
        assert forall|i: int| 0 <= i < a.len() implies (#[trigger] a[i]).wf() by {
            assert(sections[i].wf());
        }
        lemma_reasons_counted(a);
        assert(sections[sections.len() - 1].wf());
    }
}

/// `shots` records these sections, one after the other.
pub open spec fn all_recorded(shots: Seq<ContextSectionSnapshot>, sections: Seq<ContextSection>) -> bool {
    shots.len() == sections.len() && forall|i: int|
        0 <= i < shots.len() ==> records(#[trigger] shots[i], sections[i])
}

/// The counts of a pack agree: as many sections are counted as dropped as reasons are named
/// and as snapshots are not included, and as many as trimmed as snapshots are trimmed.
pub proof fn lemma_counts_agree(sections: Seq<ContextSection>, shots: Seq<ContextSectionSnapshot>)
    requires
        reasons_given(sections),
        all_recorded(shots, sections),
    ensures
        sections.filter(|s: ContextSection| !s.included).len() == drop_reason_names(sections).len(),
        sections.filter(|s: ContextSection| !s.included).len() == shots.filter(
            |t: ContextSectionSnapshot| !t.included,
        ).len(),
        sections.filter(|s: ContextSection| s.trimmed).len() == shots.filter(
            |t: ContextSectionSnapshot| t.trimmed,
        ).len(),
    decreases sections.len(),
{
    reveal(Seq::filter);
    if sections.len() > 0 {
        let a = sections.drop_last();
        let b = shots.drop_last();
        assert forall|i: int| 0 <= i < a.len() implies (#[trigger] a[i]).wf() by {
            assert(sections[i].wf());
        }
        assert forall|i: int| 0 <= i < b.len() implies records(#[trigger] b[i], a[i]) by {
            assert(records(shots[i], sections[i]));
        }
        lemma_counts_agree(a, b);
        assert(sections[sections.len() - 1].wf());
        assert(records(shots[shots.len() - 1], sections[sections.len() - 1]));
    }
}

// ---------------------------------------------------------------------------
// Laws
// ---------------------------------------------------------------------------

/// Which sections must stay, and in which order the others give way: the recent tasks first,
/// then the session's text, earlier observations, memories, the latest observation, the plan,
/// and last the session's state and the current task.
pub proof fn lemma_what_gives_way()
    ensures
        forall|k: ContextSectionKind|
            (#[trigger] kind_policy(k)).required == (k is Preamble || k is CurrentIntent
                || k is RuntimeContext || k is ToolDescriptions || k is ResponseContract),
        ({
            let p = |k: ContextSectionKind| kind_policy(k).priority;
            &&& p(ContextSectionKind::RecentTasks) < p(ContextSectionKind::SessionText)
            &&& p(ContextSectionKind::SessionText) < p(ContextSectionKind::PreviousObservations)
            &&& p(ContextSectionKind::PreviousObservations) < p(ContextSectionKind::UserMemories)
            &&& p(ContextSectionKind::UserMemories) < p(ContextSectionKind::LatestObservation)
            &&& p(ContextSectionKind::LatestObservation) < p(ContextSectionKind::RuntimePlan)
            &&& p(ContextSectionKind::RuntimePlan) < p(ContextSectionKind::SessionState)
            &&& p(ContextSectionKind::SessionState) == p(ContextSectionKind::CurrentTask)
            &&& p(ContextSectionKind::CurrentTask) < p(ContextSectionKind::RuntimeContext)
            &&& p(ContextSectionKind::RuntimeContext) < p(ContextSectionKind::Preamble)
            &&& p(ContextSectionKind::Preamble) == 100
            &&& p(ContextSectionKind::CurrentIntent) == 100
            &&& p(ContextSectionKind::ResponseContract) == 100
        }),
{
}

/// Every section has a budget and pinned lines within bounds, and all budgets together come to
/// a fixed number of characters.
pub proof fn lemma_section_budgets()
    ensures
        forall|k: ContextSectionKind| 120 <= (#[trigger] kind_policy(k)).max_chars <= 560,
        forall|k: ContextSectionKind| 1 <= (#[trigger] kind_policy(k)).pinned_lines <= 10,
        ({
            let m = |k: ContextSectionKind| kind_policy(k).max_chars as int;
            m(ContextSectionKind::Preamble) + m(ContextSectionKind::CurrentIntent) + m(
                ContextSectionKind::RuntimeContext,
            ) + m(ContextSectionKind::SessionState) + m(ContextSectionKind::SessionText) + m(
                ContextSectionKind::PreviousObservations,
            ) + m(ContextSectionKind::LatestObservation) + m(ContextSectionKind::RuntimePlan) + m(
                ContextSectionKind::CurrentTask,
            ) + m(ContextSectionKind::RecentTasks) + m(ContextSectionKind::UserMemories) + m(
                ContextSectionKind::ToolDescriptions,
            ) + m(ContextSectionKind::ResponseContract) == 5220
        }),
{
}

/// The prompt has the lines of every section that is in it, in their places, and nothing of
/// the others.
pub proof fn lemma_prompt_in_order(a: Seq<ContextSection>, s: ContextSection, b: Seq<ContextSection>)
    ensures
        s.included ==> included_lines(a + seq![s] + b) == included_lines(a) + text::texts(s.lines@)
            + included_lines(b),
        !s.included ==> included_lines(a + seq![s] + b) == included_lines(a) + included_lines(b),
        total_of(a + seq![s] + b) == total_of(a) + section_chars(s) + total_of(b),
    decreases b.len(),
{
    let all = a + seq![s] + b;
    if b.len() == 0 {
        assert(all.drop_last() =~= a);
        assert(all.last() == s);
        assert(included_lines(a) + text::texts(s.lines@) + included_lines(b) =~= included_lines(a)
            + text::texts(s.lines@));
        assert(included_lines(a) + included_lines(b) =~= included_lines(a));
    } else {
        assert(all.drop_last() =~= a + seq![s] + b.drop_last());
        assert(all.last() == b.last());
        lemma_prompt_in_order(a, s, b.drop_last());
        if s.included {
            assert(included_lines(all) =~= included_lines(a) + text::texts(s.lines@)
                + included_lines(b));
        } else {
            assert(included_lines(all) =~= included_lines(a) + included_lines(b));
        }
    }
}

/// Every section that was left out is listed with its reason, in order, and no other is.
pub proof fn lemma_reasons_in_order(
    a: Seq<ContextSection>,
    s: ContextSection,
    b: Seq<ContextSection>,
)
    requires
        s.wf(),
    ensures
        drop_reason_names(a + seq![s] + b) == drop_reason_names(a) + (match s.drop_reason {
            Some(r) => seq![reason_name(r)],
            None => Seq::empty(),
        }) + drop_reason_names(b),
    decreases b.len(),
{
    let all = a + seq![s] + b;
    let here: Seq<Seq<char>> = match s.drop_reason {
        Some(r) => seq![reason_name(r)],
        None => Seq::empty(),
    };
    if b.len() == 0 {
        assert(all.drop_last() =~= a);
        assert(all.last() == s);
        assert(drop_reason_names(all) =~= drop_reason_names(a) + here + drop_reason_names(b));
    } else {
        assert(all.drop_last() =~= a + seq![s] + b.drop_last());
        assert(all.last() == b.last());
        lemma_reasons_in_order(a, s, b.drop_last());
        assert(drop_reason_names(all) =~= drop_reason_names(a) + here + drop_reason_names(b));
    }
}

/// A section that was left out adds nothing to the prompt, but a snapshot still shows what
/// it was about.
pub proof fn lemma_dropped_section(s: ContextSection, reason: ContextSectionChangeReason)
    ensures
        ({
            let d = dropped(s, reason);
            &&& section_chars(d) == 0
            &&& section_items(d) == 0
            &&& d.lines == s.lines && d.kind == s.kind && d.policy == s.policy
            &&& d.drop_reason == Some(reason)
            &&& s.original_content@.len() <= 240 ==> snapshot_content(d) == s.original_content@
            &&& s.included ==> snapshot_content(s) == section_text(s)
        }),
{
    if s.original_content@.len() <= 240 {
        session_summary::lemma_summarized_identity(s.original_content@, 240);
    }
}

} // verus!
