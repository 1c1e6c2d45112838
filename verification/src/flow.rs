//! The decisions of a commit-message run: what to show, when to offer
//! staging, how a provider error narrows the diff, whether a generated
//! message is acceptable, and what happens to it. The run itself (git,
//! network, terminal) happens outside the library and asks these functions
//! at each step.
use vstd::prelude::*;
use crate::text::{
    chars_of, string_of, push_str, push_range, trim, trim_range, lines, line_ranges, lowercase,
    lower_range,
};
use crate::diff::{DiffMode, next_smaller_mode, mode_rank};
use crate::llm::{Message, Role, contains};
use crate::prompt::{commit_line, is_conventional_commit_message};

verus! {

/// The staged diff is paged before generation only in the interactive
/// commit flow (not with `--yes`, `--dry-run` or from the hook).
pub fn should_show_diff_before_generation(yes: bool, dry_run: bool, hook: bool) -> (b: bool)
    ensures
        b == (!yes && !dry_run && !hook),
{
    !yes && !dry_run && !hook
}

/// With nothing staged, staging is offered except from the hook.
pub fn should_offer_stage_when_no_staged(hook: bool) -> (b: bool)
    ensures
        b == !hook,
{
    !hook
}

/// The staged summary is printed except for a dry run or from the hook.
pub fn should_print_summary(dry_run: bool, hook: bool) -> (b: bool)
    ensures
        b == (!dry_run && !hook),
{
    !dry_run && !hook
}

/// The thinking placeholder is shown only in the interactive flow.
pub fn should_show_thinking(yes: bool, dry_run: bool, hook: bool) -> (b: bool)
    ensures
        b == (!yes && !dry_run && !hook),
{
    !yes && !dry_run && !hook
}

/// Equality of two character vectors.
fn same(a: &Vec<char>, b: &Vec<char>) -> (r: bool)
    ensures
        r == (a@ == b@),
{
    assert(a@.subrange(0, a@.len() as int) =~= a@);
    crate::text::range_eq(a, 0, a.len(), b)
}

/// The cleaned message is printed again only when cleaning changed what the
/// user saw (the shown text, trimmed).
pub fn should_print_cleaned_message(raw_message: &str, cleaned_message: &str) -> (b: bool)
    ensures
        b == (cleaned_message@ != trim(raw_message@)),
{
    let v = chars_of(raw_message);
    let (a, e) = trim_range(&v, 0, v.len());
    assert(v@.subrange(0, v@.len() as int) =~= v@);
    let mut t: Vec<char> = Vec::new();
    push_range(&mut t, &v, a, e);
    assert(t@ =~= trim(raw_message@));
    !same(&chars_of(cleaned_message), &t)
}

/// Why a generated message was refused.
#[derive(Debug, PartialEq, Eq)]
pub enum MessageError {
    /// Nothing but whitespace came back.
    Empty,
    /// The first line is not a conventional commit line (the line).
    NotConventional(String),
}

/// The message of each refusal.
pub open spec fn message_error_text(e: MessageError) -> Seq<char> {
    match e {
        MessageError::Empty => "provider returned an empty commit message"@,
        MessageError::NotConventional(l) => "provider returned a non-conventional commit message: "@ + l@,
    }
}

impl MessageError {
    /// The message shown to the user.
    pub fn message(&self) -> (s: String)
        ensures
            s@ == message_error_text(*self),
    {
        let mut out: Vec<char> = Vec::new();
        match self {
            MessageError::Empty => push_str(&mut out, "provider returned an empty commit message"),
            MessageError::NotConventional(l) => {
                push_str(&mut out, "provider returned a non-conventional commit message: ");
                push_str(&mut out, l.as_str());
            },
        }
        string_of(&out)
    }
}

/// A generated message is accepted when, trimmed, it is not empty and its
/// first line is a conventional commit line.
pub fn validate_generated_message(message: &str) -> (r: Result<(), MessageError>)
    ensures
        trim(message@).len() == 0 ==> r == Err::<(), MessageError>(MessageError::Empty),
        trim(message@).len() > 0 && commit_line(lines(trim(message@))[0]) ==> r is Ok,
        trim(message@).len() > 0 && !commit_line(lines(trim(message@))[0]) ==>
            (r matches Err(MessageError::NotConventional(l)) && l@ == lines(trim(message@))[0]),
{
    let v = chars_of(message);
    let (a, e) = trim_range(&v, 0, v.len());
    assert(v@.subrange(0, v@.len() as int) =~= v@);
    if a == e {
        return Err(MessageError::Empty);
    }
    let mut t: Vec<char> = Vec::new();
    push_range(&mut t, &v, a, e);
    assert(t@ =~= trim(message@));
    let ts = string_of(&t);
    let rs = line_ranges(&t);
    proof {
        crate::text::lemma_lines_nonempty(t@);
    }
    if is_conventional_commit_message(ts.as_str()) {
        return Ok(());
    }
    let (lo, hi) = rs[0];
    let mut first: Vec<char> = Vec::new();
    push_range(&mut first, &t, lo, hi);
    assert(first@ =~= t@.subrange(lo as int, hi as int));
    Err(MessageError::NotConventional(string_of(&first)))
}

/// A provider error that looks like the prompt was too long: its message,
/// lower-cased, mentions `context`, `too long`, `maximum` or `token`.
pub open spec fn context_error(message: Seq<char>) -> bool {
    let m = lowercase(message);
    contains(m, "context"@) || contains(m, "too long"@) || contains(m, "maximum"@) || contains(m, "token"@)
}

fn contains_lit(v: &Vec<char>, lit: &str) -> (b: bool)
    ensures
        b == contains(v@, lit@),
{
    let w = chars_of(lit);
    let n = v.len();
    let m = w.len();
    if m > n {
        return false;
    }
    let last = n - m;
    let mut i: usize = 0;
    loop
        invariant
            m == w@.len(),
            n == v@.len(),
            m <= n,
            last == n - m,
            i <= last,
            w@ == lit@,
            forall|j: int| 0 <= j < i ==> #[trigger] v@.subrange(j, j + m) != w@,
        decreases last - i,
    {
        assert(v@.subrange(i as int, n as int).subrange(0, m as int) =~= v@.subrange(i as int, i + m));
        if crate::text::range_starts_with(v, i, n, &w) {
            return true;
        }
        if i == last {
            assert forall|j: int| 0 <= j && j + w@.len() <= v@.len() implies #[trigger] v@.subrange(j, j + w@.len()) != w@ by {
                assert(j <= i);
            }
            return false;
        }
        i = i + 1;
    }
}

/// Does the provider's error message point at a too-long prompt?
pub fn is_context_error(message: &str) -> (b: bool)
    ensures
        b == context_error(message@),
{
    let v = chars_of(message);
    let lower = lower_range(&v, 0, v.len());
    assert(v@.subrange(0, v@.len() as int) =~= v@);
    contains_lit(&lower, "context") || contains_lit(&lower, "too long") || contains_lit(&lower, "maximum")
        || contains_lit(&lower, "token")
}

/// Retries allowed after a provider rejected the prompt as too long.
pub const MAX_RETRIES: usize = 2;

/// After a provider error, with `retries` retries made so far: the next
/// smaller diff mode to retry with when the error points at a too-long
/// prompt, fewer than two retries were made, and a smaller mode is left;
/// otherwise `None` (the error stands). So at most two retries follow the
/// first request, each with a smaller mode.
pub fn retry_mode(error_message: &str, current: DiffMode, retries: usize) -> (r: Option<DiffMode>)
    ensures
        retries >= MAX_RETRIES ==> r is None,
        !context_error(error_message@) ==> r is None,
        retries < MAX_RETRIES && context_error(error_message@) ==> r == next_mode_of(current),
        r matches Some(m) ==> mode_rank(m) < mode_rank(current),
{
    if retries >= MAX_RETRIES {
        return None;
    }
    if is_context_error(error_message) {
        next_smaller_mode(current)
    } else {
        None
    }
}

/// The next smaller mode, as a value.
pub open spec fn next_mode_of(m: DiffMode) -> Option<DiffMode> {
    match m {
        DiffMode::Full => Some(DiffMode::Compact),
        DiffMode::Compact => Some(DiffMode::Budgeted),
        DiffMode::Budgeted => Some(DiffMode::Stat),
        DiffMode::Stat => None,
    }
}

/// The user's turn: the diff, preceded by the context hint when one was
/// given.
pub open spec fn user_text(context: Option<Seq<char>>, diff: Seq<char>) -> Seq<char> {
    match context {
        Some(c) => "Context: "@ + c + "\n\n"@ + diff,
        None => diff,
    }
}

/// The two messages of a request: the system prompt, then the user's
/// turn (see `user_text`).
pub fn chat_messages(system_prompt: &str, context: Option<&str>, diff: &str) -> (r: Vec<Message>)
    ensures
        r@.len() == 2,
        r@[0].role == Role::System,
        r@[0].content@ == system_prompt@,
        r@[1].role == Role::User,
        r@[1].content@ == user_text(match context { Some(c) => Some(c@), None => None }, diff@),
{
    let user = match context {
        Some(c) => {
            let mut out = chars_of("Context: ");
            push_str(&mut out, c);
            push_str(&mut out, "\n\n");
            push_str(&mut out, diff);
            string_of(&out)
        },
        None => diff.to_owned(),
    };
    let mut r: Vec<Message> = Vec::new();
    r.push(Message { role: Role::System, content: system_prompt.to_owned() });
    r.push(Message { role: Role::User, content: user });
    r
}

/// What happens when nothing is staged.
#[derive(Debug, PartialEq, Eq, Clone, Copy)]
pub enum NothingStaged {
    /// Stop quietly (the hook must not disturb a commit).
    Quit,
    /// Show the unstaged changes and offer to stage them all (or stage them
    /// right away with `--yes`).
    OfferStage,
    /// Fail with the git error.
    Fail,
}

/// Decide what to do when nothing is staged.
pub fn when_nothing_staged(hook: bool, has_unstaged: bool) -> (r: NothingStaged)
    ensures
        hook ==> r == NothingStaged::Quit,
        !hook && has_unstaged ==> r == NothingStaged::OfferStage,
        !hook && !has_unstaged ==> r == NothingStaged::Fail,
{
    if hook {
        NothingStaged::Quit
    } else if should_offer_stage_when_no_staged(hook) && has_unstaged {
        NothingStaged::OfferStage
    } else {
        NothingStaged::Fail
    }
}

/// What becomes of an accepted message.
#[derive(Debug, PartialEq, Eq, Clone, Copy)]
pub enum Delivery {
    /// Write it to the hook's message file.
    WriteHookFile,
    /// Only show it (dry run).
    ShowOnly,
    /// Commit at once, then offer to push (`--yes`).
    Commit,
    /// Ask the user what to do.
    Ask,
}

/// Decide what becomes of an accepted message: the hook wins, then a dry
/// run, then `--yes`; otherwise the user is asked.
pub fn delivery(hook: bool, dry_run: bool, yes: bool) -> (r: Delivery)
    ensures
        hook ==> r == Delivery::WriteHookFile,
        !hook && dry_run ==> r == Delivery::ShowOnly,
        !hook && !dry_run && yes ==> r == Delivery::Commit,
        !hook && !dry_run && !yes ==> r == Delivery::Ask,
{
    if hook {
        Delivery::WriteHookFile
    } else if dry_run {
        Delivery::ShowOnly
    } else if yes {
        Delivery::Commit
    } else {
        Delivery::Ask
    }
}

/// An edited message is committed only when something is left of it.
pub fn commit_edited(edited: &str) -> (b: bool)
    ensures
        b == (edited@.len() > 0),
{
    chars_of(edited).len() > 0
}


/// What the editor left in the file, trimmed.
pub fn edited_message(content: &str) -> (r: String)
    ensures
        r@ == trim(content@),
{
    let v = chars_of(content);
    let (a, e) = trim_range(&v, 0, v.len());
    assert(v@.subrange(0, v@.len() as int) =~= v@);
    let mut t: Vec<char> = Vec::new();
    push_range(&mut t, &v, a, e);
    assert(t@ =~= trim(content@));
    string_of(&t)
}

} // verus!
