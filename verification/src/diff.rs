//! Choosing how much of the staged diff the model sees: full, compact,
//! budgeted (per-file hunks within a token budget) or stat only.
use vstd::prelude::*;
use crate::text::{
    blen, chars_of, string_of, trim, trim_end, join, dec, push_all, push_str, push_decimal,
    byte_len, skip_ws_back, push_range, vtexts, push_joined,
};
use crate::token::{tokens, est, est_of, truncate_chars, truncation_safe, truncate_to_tokens};
use crate::git::{low_signal, is_low_signal_path};

verus! {

// ---------------------------------------------------------------------------
// Diff modes
// ---------------------------------------------------------------------------

/// How much detail of the staged changes is sent.
#[derive(Debug, Clone, Copy, PartialEq, Eq, Structural)]
pub enum DiffMode {
    Full,
    Compact,
    Budgeted,
    Stat,
}

/// Position of a mode on the reduction ladder (`Stat` is the smallest).
pub open spec fn mode_rank(m: DiffMode) -> nat {
    match m {
        DiffMode::Full => 3,
        DiffMode::Compact => 2,
        DiffMode::Budgeted => 1,
        DiffMode::Stat => 0,
    }
}

/// The name of a mode, as configured and printed.
pub open spec fn mode_name(m: DiffMode) -> Seq<char> {
    match m {
        DiffMode::Full => "full"@,
        DiffMode::Compact => "compact"@,
        DiffMode::Budgeted => "budgeted"@,
        DiffMode::Stat => "stat"@,
    }
}

impl DiffMode {
    /// The mode's name (`full`, `compact`, `budgeted`, `stat`).
    pub fn name(&self) -> (s: String)
        ensures
            s@ == mode_name(*self),
    {
        match self {
            DiffMode::Full => string_of(&chars_of("full")),
            DiffMode::Compact => string_of(&chars_of("compact")),
            DiffMode::Budgeted => string_of(&chars_of("budgeted")),
            DiffMode::Stat => string_of(&chars_of("stat")),
        }
    }

    /// The mode with the given name, if there is one.
    pub fn from_name(s: &str) -> (r: Option<DiffMode>)
        ensures
            r matches Some(m) ==> mode_name(m) == s@,
            r is None ==> forall|m: DiffMode| mode_name(m) != s@,
    {
        let v = chars_of(s);
        let n = v.len();
        if crate::text::range_eq(&v, 0, n, &chars_of("full")) {
            assert(v@.subrange(0, n as int) =~= v@);
            return Some(DiffMode::Full);
        }
        if crate::text::range_eq(&v, 0, n, &chars_of("compact")) {
            assert(v@.subrange(0, n as int) =~= v@);
            return Some(DiffMode::Compact);
        }
        if crate::text::range_eq(&v, 0, n, &chars_of("budgeted")) {
            assert(v@.subrange(0, n as int) =~= v@);
            return Some(DiffMode::Budgeted);
        }
        if crate::text::range_eq(&v, 0, n, &chars_of("stat")) {
            assert(v@.subrange(0, n as int) =~= v@);
            return Some(DiffMode::Stat);
        }
        assert(v@.subrange(0, n as int) =~= v@);
        assert forall|m: DiffMode| mode_name(m) != s@ by {
            match m {
                DiffMode::Full => {},
                DiffMode::Compact => {},
                DiffMode::Budgeted => {},
                DiffMode::Stat => {},
            }
        }
        None
    }
}

impl std::str::FromStr for DiffMode {
    type Err = ();

    /// The mode with the given name (`full`, `compact`, `budgeted`, `stat`);
    /// any other text is refused.
    fn from_str(s: &str) -> (r: Result<DiffMode, ()>)
        ensures
            r matches Ok(m) ==> mode_name(m) == s@,
            r matches Ok(m) ==> forall|x: DiffMode| mode_name(x) == s@ ==> x == m,
            r is Err <==> forall|m: DiffMode| mode_name(m) != s@,
    {
        match DiffMode::from_name(s) {
            Some(m) => {
                proof {
                    assert forall|x: DiffMode| mode_name(x) == s@ implies x == m by {
                        lemma_mode_name_injective(x, m);
                    }
                }
                Ok(m)
            },
            None => Err(()),
        }
    }
}

/// The next smaller diff mode, for a retry after a context-length error:
/// full, compact, budgeted, stat, then none. Each step lowers the rank, so
/// retrying terminates.
pub fn next_smaller_mode(mode: DiffMode) -> (r: Option<DiffMode>)
    ensures
        r is None <==> mode == DiffMode::Stat,
        r matches Some(n) ==> mode_rank(n) + 1 == mode_rank(mode),
        mode == DiffMode::Full ==> r == Some(DiffMode::Compact),
        mode == DiffMode::Compact ==> r == Some(DiffMode::Budgeted),
        mode == DiffMode::Budgeted ==> r == Some(DiffMode::Stat),
{
    match mode {
        DiffMode::Full => Some(DiffMode::Compact),
        DiffMode::Compact => Some(DiffMode::Budgeted),
        DiffMode::Budgeted => Some(DiffMode::Stat),
        DiffMode::Stat => None,
    }
}

} // verus!

verus! {

// ---------------------------------------------------------------------------
// Budgeted diff (pure)
// ---------------------------------------------------------------------------

/// Least per-file budget worth spending, in tokens.
pub const FLOOR_TOKENS: usize = 120;

/// Tokens reserved for the trailing omission line.
pub const OMISSION_RESERVE: usize = 24;

/// The header of a budgeted diff.
pub open spec fn budget_header(stat: Seq<char>) -> Seq<char> {
    "Files changed (ranked by relevance):\n"@ + stat
        + "\n\n--- diff (hunks by relevance; some truncated or omitted) ---\n"@
}

/// The line that ends a truncated section.
pub open spec fn marker() -> Seq<char> {
    "... [hunks truncated]"@
}

/// The section that stands for `diff` under a cap of `cap` tokens:
/// `Some(Some(s))` appends `s`, `Some(None)` drops the file, `None` is a cut
/// that would not fall on a character boundary.
pub open spec fn section_outcome(diff: Seq<char>, cap: nat) -> Option<Option<Seq<char>>> {
    if trim(diff).len() == 0 {
        Some(None)
    } else if tokens(diff) + 1 <= cap {
        Some(Some(diff))
    } else if cap <= tokens(marker()) + 1 {
        Some(None)
    } else if !truncation_safe(diff, (cap - (tokens(marker()) + 1)) as nat) {
        None
    } else {
        let t = truncate_chars(diff, (cap - (tokens(marker()) + 1)) as nat);
        if trim(t).len() == 0 {
            Some(None)
        } else {
            Some(Some(trim_end(t) + "\n"@ + marker()))
        }
    }
}

/// State of the budgeted allocation.
pub struct BudgetState {
    pub sections: Seq<Seq<char>>,
    pub remaining: nat,
    pub omitted: nat,
    pub safe: bool,
}

/// `a - b`, or 0.
pub open spec fn sat_sub(a: nat, b: nat) -> nat {
    if a >= b { (a - b) as nat } else { 0 }
}

/// Offer one file's diff under cap `cap`.
pub open spec fn offer(st: BudgetState, diff: Seq<char>, cap: nat) -> BudgetState {
    if st.remaining < FLOOR_TOKENS {
        BudgetState { omitted: st.omitted + 1, ..st }
    } else {
        match section_outcome(diff, cap) {
            None => BudgetState { safe: false, ..st },
            Some(None) => BudgetState { omitted: st.omitted + 1, ..st },
            Some(Some(s)) => BudgetState {
                sections: st.sections.push(s),
                remaining: sat_sub(st.remaining, tokens(s) + 1),
                ..st
            },
        }
    }
}

/// The cap of a high-signal file with `left` files still to visit
/// (itself included).
pub open spec fn signal_cap(remaining: nat, left: nat) -> nat {
    let share = if left > 0 { remaining / left } else { remaining };
    let want = if share > FLOOR_TOKENS { share } else { FLOOR_TOKENS as nat };
    if remaining < want { remaining } else { want }
}

/// First pass: high-signal files in order, each capped at its share.
pub open spec fn signal_pass(st: BudgetState, ds: Seq<Seq<char>>) -> BudgetState
    decreases ds.len(),
{
    if ds.len() == 0 || !st.safe {
        st
    } else {
        signal_pass(offer(st, ds[0], signal_cap(st.remaining, ds.len())), ds.drop_first())
    }
}

/// Second pass: low-signal files in order, from whatever budget is left.
pub open spec fn low_pass(st: BudgetState, ds: Seq<Seq<char>>) -> BudgetState
    decreases ds.len(),
{
    if ds.len() == 0 || !st.safe {
        st
    } else {
        low_pass(offer(st, ds[0], st.remaining), ds.drop_first())
    }
}

/// The diffs of the files whose low-signal status is `low`, in order.
pub open spec fn select(pf: Seq<(Seq<char>, Seq<char>)>, low: bool) -> Seq<Seq<char>>
    decreases pf.len(),
{
    if pf.len() == 0 {
        seq![]
    } else if low_signal(pf.last().0) == low {
        select(pf.drop_last(), low).push(pf.last().1)
    } else {
        select(pf.drop_last(), low)
    }
}

/// The diffs the budget passes visit keep the order of the files given:
/// adding a file at the end adds its diff at the end of the list of its
/// kind and leaves the other list unchanged. So the list of a kind is the
/// diffs of the files of that kind, in the given (relevance) order.
pub proof fn lemma_select_keeps_order(pf: Seq<(Seq<char>, Seq<char>)>, x: (Seq<char>, Seq<char>), low: bool)
    ensures
        select(Seq::<(Seq<char>, Seq<char>)>::empty(), low) == Seq::<Seq<char>>::empty(),
        low_signal(x.0) == low ==> select(pf.push(x), low) == select(pf, low).push(x.1),
        low_signal(x.0) != low ==> select(pf.push(x), low) == select(pf, low),
        select(pf, low) == pf.filter(|p: (Seq<char>, Seq<char>)| low_signal(p.0) == low).map_values(
            |p: (Seq<char>, Seq<char>)| p.1,
        ),
    decreases pf.len(),
{
    assert(pf.push(x).drop_last() =~= pf);
    let pred = |p: (Seq<char>, Seq<char>)| low_signal(p.0) == low;
    let snd = |p: (Seq<char>, Seq<char>)| p.1;
    reveal(Seq::filter);
    if pf.len() == 0 {
        assert(pf.filter(pred).map_values(snd) =~= Seq::<Seq<char>>::empty());
    } else {
        lemma_select_keeps_order(pf.drop_last(), pf.last(), low);
        let f = pf.drop_last().filter(pred);
        assert(f.map_values(snd) == select(pf.drop_last(), low));
        assert(pf.filter(pred) == (if pred(pf.last()) { f.push(pf.last()) } else { f }));
        assert(f.push(pf.last()).map_values(snd) =~= f.map_values(snd).push(pf.last().1));
    }
}

/// Per-file `(path, diff)` pairs by their texts.
pub open spec fn pairs(s: Seq<(String, String)>) -> Seq<(Seq<char>, Seq<char>)> {
    s.map_values(|p: (String, String)| (p.0@, p.1@))
}

/// The trailing line that counts files whose hunks were dropped.
pub open spec fn omission_line(omitted: nat, files: nat) -> Seq<char> {
    "\n[hunks omitted for "@ + dec(omitted) + " of "@ + dec(files) + " files "@ + seq!['\u{2014}']
        + " see file list above]"@
}

/// Budget left for hunks once the header and the omission reserve are paid.
pub open spec fn hunk_budget(stat: Seq<char>, max: nat) -> Option<nat> {
    let fixed = tokens(budget_header(stat)) + OMISSION_RESERVE;
    if max < fixed { None } else { Some((max - fixed) as nat) }
}

/// The state after both passes.
pub open spec fn budget_run(stat: Seq<char>, pf: Seq<(Seq<char>, Seq<char>)>, rem: nat) -> BudgetState {
    let st0 = BudgetState { sections: seq![], remaining: rem, omitted: 0, safe: true };
    low_pass(signal_pass(st0, select(pf, false)), select(pf, true))
}

/// Whether every cut that the budgeted diff makes falls on a character
/// boundary (slicing a string elsewhere panics).
pub open spec fn budgeted_safe(stat: Seq<char>, pf: Seq<(Seq<char>, Seq<char>)>, max: nat) -> bool {
    if pf.len() == 0 {
        true
    } else {
        match hunk_budget(stat, max) {
            None => true,
            Some(rem) => rem < FLOOR_TOKENS || budget_run(stat, pf, rem).safe,
        }
    }
}

/// The budgeted diff: the ranked stat header, then per-file hunks allocated
/// greedily (high-signal files first, each at least `FLOOR_TOKENS` or an even
/// share of what is left; low-signal files from the rest; oversized hunks
/// truncated with a marker), then a line counting files whose hunks were
/// dropped. `None` when there are no files, when the header leaves less
/// than `FLOOR_TOKENS` for hunks, or when no hunk made it in.
pub open spec fn budgeted_text(stat: Seq<char>, pf: Seq<(Seq<char>, Seq<char>)>, max: nat) -> Option<Seq<char>> {
    if pf.len() == 0 {
        None
    } else {
        match hunk_budget(stat, max) {
            None => None,
            Some(rem) => if rem < FLOOR_TOKENS {
                None
            } else {
                let st = budget_run(stat, pf, rem);
                if st.sections.len() == 0 {
                    None
                } else {
                    Some(budget_header(stat) + join(st.sections, "\n"@)
                        + if st.omitted > 0 { omission_line(st.omitted, pf.len()) } else { Seq::<char>::empty() })
                }
            },
        }
    }
}

} // verus!

verus! {


/// `tokens` of a character vector.
fn tokens_of(v: &Vec<char>) -> (t: u128)
    ensures
        t == tokens(v@),
        t <= 4 * 0xFFFF_FFFF_FFFF_FFFFu128,
{
    let n = byte_len(v, 0, v.len());
    assert(v@.subrange(0, v@.len() as int) =~= v@);
    est_of(n)
}

/// The section that stands for `diff` under cap `cap` (see `section_outcome`).
fn make_section(diff: &str, cap: usize) -> (r: Option<Option<Vec<char>>>)
    ensures
        match r {
            None => section_outcome(diff@, cap as nat) is None,
            Some(None) => section_outcome(diff@, cap as nat) == Some(None::<Seq<char>>),
            Some(Some(v)) => section_outcome(diff@, cap as nat) == Some(Some(v@)),
        },
{
    let v = chars_of(diff);
    let n = v.len();
    let (a, b) = crate::text::trim_range(&v, 0, n);
    assert(v@.subrange(0, n as int) =~= v@);
    if a == b {
        return Some(None);
    }
    let whole = crate::token::estimate_tokens(diff) as u128 + 1;
    if whole <= cap as u128 {
        return Some(Some(v));
    }
    let mt = crate::token::estimate_tokens("... [hunks truncated]");
    if mt >= cap {
        return Some(None);
    }
    let mc = mt + 1;
    if cap <= mc {
        return Some(None);
    }
    let limit = cap - mc;
    if !crate::token::truncation_is_safe(diff, limit) {
        return None;
    }
    let t = truncate_to_tokens(diff, limit);
    let tv = chars_of(t.as_str());
    let tn = tv.len();
    let (ta, tb) = crate::text::trim_range(&tv, 0, tn);
    assert(tv@.subrange(0, tn as int) =~= tv@);
    if ta == tb {
        return Some(None);
    }
    let e = skip_ws_back(&tv, 0, tn);
    let mut s: Vec<char> = Vec::new();
    push_range(&mut s, &tv, 0, e);
    push_str(&mut s, "\n");
    push_str(&mut s, "... [hunks truncated]");
    proof {
        assert(Seq::<char>::empty() + tv@.subrange(0, e as int) =~= tv@.subrange(0, e as int));
    }
    Some(Some(s))
}

/// Offer one file's diff (see `offer`); false when the cut would not fall
/// on a character boundary.
fn offer_exec(
    diff: &str,
    cap: usize,
    sections: &mut Vec<Vec<char>>,
    remaining: &mut usize,
    omitted: &mut usize,
) -> (ok: bool)
    requires
        *old(omitted) < usize::MAX,
    ensures
        offer(
            BudgetState { sections: vtexts(old(sections)@), remaining: *old(remaining) as nat, omitted: *old(omitted) as nat, safe: true },
            diff@,
            cap as nat,
        ) == (BudgetState { sections: vtexts(final(sections)@), remaining: *final(remaining) as nat, omitted: *final(omitted) as nat, safe: ok }),
{
    if *remaining < FLOOR_TOKENS {
        *omitted = *omitted + 1;
        return true;
    }
    match make_section(diff, cap) {
        None => false,
        Some(None) => {
            *omitted = *omitted + 1;
            true
        },
        Some(Some(s)) => {
            let cost = tokens_of(&s) + 1;
            if (*remaining as u128) >= cost {
                *remaining = ((*remaining as u128) - cost) as usize;
            } else {
                *remaining = 0;
            }
            let ghost before = vtexts(sections@);
            sections.push(s);
            assert(vtexts(sections@) =~= before.push(s@));
            true
        },
    }
}

} // verus!

verus! {

/// Indices of the files whose low-signal status is `low`, with their diffs.
fn select_indices(per_file: &[(String, String)], lows: &Vec<bool>, low: bool) -> (r: Vec<usize>)
    requires
        lows@.len() == per_file@.len(),
        forall|i: int| 0 <= i < lows@.len() ==> lows@[i] == low_signal((#[trigger] per_file@[i]).0@),
    ensures
        forall|k: int| 0 <= k < r@.len() ==> (#[trigger] r@[k]) < per_file@.len(),
        forall|a: int, b: int| 0 <= a < b < r@.len() ==> r@[a] < r@[b],
        r@.map_values(|i: usize| pairs(per_file@)[i as int].1) == select(pairs(per_file@), low),
{
    let ghost pf = pairs(per_file@);
    let mut r: Vec<usize> = Vec::new();
    let mut i: usize = 0;
    assert(pf.take(0) =~= Seq::<(Seq<char>, Seq<char>)>::empty());
    while i < per_file.len()
        invariant
            pf == pairs(per_file@),
            lows@.len() == per_file@.len(),
            forall|i: int| 0 <= i < lows@.len() ==> lows@[i] == low_signal((#[trigger] per_file@[i]).0@),
            i <= per_file@.len(),
            forall|k: int| 0 <= k < r@.len() ==> (#[trigger] r@[k]) < i,
            forall|a: int, b: int| 0 <= a < b < r@.len() ==> r@[a] < r@[b],
            r@.map_values(|i: usize| pf[i as int].1) == select(pf.take(i as int), low),
        decreases per_file@.len() - i,
    {
        proof {
            assert(pf.take(i + 1).drop_last() =~= pf.take(i as int));
            assert(pf.take(i + 1).last() == pf[i as int]);
            assert(pf[i as int].0 == per_file@[i as int].0@);
        }
        let ghost before = r@;
        if lows[i] == low {
            r.push(i);
            assert(r@.map_values(|i: usize| pf[i as int].1) =~= before.map_values(|i: usize| pf[i as int].1).push(pf[i as int].1));
        }
        i = i + 1;
    }
    assert(pf.take(i as int) =~= pf);
    r
}

/// Passes are no-ops once a cut was unsafe.
proof fn lemma_passes_unsafe(st: BudgetState, ds: Seq<Seq<char>>)
    requires
        !st.safe,
    ensures
        signal_pass(st, ds) == st,
        low_pass(st, ds) == st,
{
}

/// Runs one pass over the files `idx` (signal caps when `signal`).
fn run_pass(
    per_file: &[(String, String)],
    idx: &Vec<usize>,
    signal: bool,
    sections: &mut Vec<Vec<char>>,
    remaining: &mut usize,
    omitted: &mut usize,
) -> (ok: bool)
    requires
        forall|k: int| 0 <= k < idx@.len() ==> (#[trigger] idx@[k]) < per_file@.len(),
        *old(omitted) + idx@.len() <= per_file@.len(),
    ensures
        ({
            let st0 = BudgetState { sections: vtexts(old(sections)@), remaining: *old(remaining) as nat, omitted: *old(omitted) as nat, safe: true };
            let ds = idx@.map_values(|i: usize| pairs(per_file@)[i as int].1);
            let st1 = BudgetState { sections: vtexts(final(sections)@), remaining: *final(remaining) as nat, omitted: *final(omitted) as nat, safe: ok };
            if signal { signal_pass(st0, ds) == st1 } else { low_pass(st0, ds) == st1 }
        }),
        *final(omitted) <= *old(omitted) + idx@.len(),
{
    let ghost ds = idx@.map_values(|i: usize| pairs(per_file@)[i as int].1);
    let ghost st0 = BudgetState { sections: vtexts(sections@), remaining: *remaining as nat, omitted: *omitted as nat, safe: true };
    let ghost om0 = *omitted as nat;
    let n = idx.len();
    let mut k: usize = 0;
    assert(ds.skip(0) =~= ds);
    while k < n
        invariant
            n == idx@.len(),
            k <= n,
            forall|t: int| 0 <= t < idx@.len() ==> (#[trigger] idx@[t]) < per_file@.len(),
            om0 + idx@.len() <= per_file@.len(),
            om0 == *old(omitted),
            st0 == (BudgetState { sections: vtexts(old(sections)@), remaining: *old(remaining) as nat, omitted: *old(omitted) as nat, safe: true }),
            *omitted <= om0 + k,
            ds == idx@.map_values(|i: usize| pairs(per_file@)[i as int].1),
            ({
                let cur = BudgetState { sections: vtexts(sections@), remaining: *remaining as nat, omitted: *omitted as nat, safe: true };
                if signal {
                    signal_pass(st0, ds) == signal_pass(cur, ds.skip(k as int))
                } else {
                    low_pass(st0, ds) == low_pass(cur, ds.skip(k as int))
                }
            }),
        decreases n - k,
    {
        let j = idx[k];
        let ghost cur = BudgetState { sections: vtexts(sections@), remaining: *remaining as nat, omitted: *omitted as nat, safe: true };
        let ghost rest = ds.skip(k as int);
        proof {
            assert(rest[0] == ds[k as int]);
            assert(ds[k as int] == per_file@[j as int].1@);
            assert(rest.drop_first() =~= ds.skip(k + 1));
            assert(rest.len() == n - k);
        }
        let cap = if signal {
            let left = n - k;
            let share = *remaining / left;
            let want = if share > FLOOR_TOKENS { share } else { FLOOR_TOKENS };
            if *remaining < want { *remaining } else { want }
        } else {
            *remaining
        };
        proof {
            if signal {
                assert(cap == signal_cap(cur.remaining, rest.len()));
                assert(signal_pass(cur, rest) == signal_pass(offer(cur, rest[0], cap as nat), rest.drop_first()));
            } else {
                assert(low_pass(cur, rest) == low_pass(offer(cur, rest[0], cap as nat), rest.drop_first()));
            }
        }
        let ok = offer_exec(per_file[j].1.as_str(), cap, sections, remaining, omitted);
        if !ok {
            proof {
                let bad = BudgetState { sections: vtexts(sections@), remaining: *remaining as nat, omitted: *omitted as nat, safe: false };
                assert(offer(cur, rest[0], cap as nat) == bad);
                lemma_passes_unsafe(bad, ds.skip(k + 1));
                assert(*omitted == cur.omitted);
                if signal {
                    assert(signal_pass(cur, rest) == bad);
                    assert(signal_pass(st0, ds) == bad);
                } else {
                    assert(low_pass(cur, rest) == bad);
                }
            }
            return false;
        }
        k = k + 1;
    }
    proof {
        assert(ds.skip(n as int) =~= Seq::<Seq<char>>::empty());
    }
    true
}

} // verus!

verus! {

proof fn lemma_select_len(pf: Seq<(Seq<char>, Seq<char>)>)
    ensures
        select(pf, false).len() + select(pf, true).len() == pf.len(),
    decreases pf.len(),
{
    if pf.len() > 0 {
        lemma_select_len(pf.drop_last());
    }
}

fn omission_chars(omitted: usize, files: usize) -> (l: Vec<char>)
    ensures
        l@ == omission_line(omitted as nat, files as nat),
{
    let mut l = chars_of("\n[hunks omitted for ");
    push_decimal(&mut l, omitted);
    push_str(&mut l, " of ");
    push_decimal(&mut l, files);
    push_str(&mut l, " files ");
    let ghost before = l@;
    l.push('\u{2014}');
    assert(l@ =~= before + seq!['\u{2014}']);
    push_str(&mut l, " see file list above]");
    l
}


/// The budgeted diff when every cut falls on a character boundary
/// (`Some(text)`), or `None` when a cut would not.
fn budget_core(stat: &str, per_file: &[(String, String)], max_tokens: usize) -> (r: Option<Option<String>>)
    ensures
        r is Some <==> budgeted_safe(stat@, pairs(per_file@), max_tokens as nat),
        r matches Some(x) ==> match x {
            Some(s) => budgeted_text(stat@, pairs(per_file@), max_tokens as nat) == Some(s@),
            None => budgeted_text(stat@, pairs(per_file@), max_tokens as nat) is None,
        },
{
    let ghost pf = pairs(per_file@);
    let ghost max = max_tokens as nat;
    if per_file.len() == 0 {
        return Some(None);
    }
    let mut header = chars_of("Files changed (ranked by relevance):\n");
    push_str(&mut header, stat);
    push_str(&mut header, "\n\n--- diff (hunks by relevance; some truncated or omitted) ---\n");
    assert(header@ == budget_header(stat@));
    let ht = tokens_of(&header);
    let fixed = ht + OMISSION_RESERVE as u128;
    if (max_tokens as u128) < fixed {
        return Some(None);
    }
    let rem = ((max_tokens as u128) - fixed) as usize;
    assert(hunk_budget(stat@, max) == Some(rem as nat));
    if rem < FLOOR_TOKENS {
        return Some(None);
    }
    let mut lows: Vec<bool> = Vec::new();
    let mut i: usize = 0;
    while i < per_file.len()
        invariant
            i <= per_file@.len(),
            lows@.len() == i,
            forall|t: int| 0 <= t < i ==> lows@[t] == low_signal((#[trigger] per_file@[t]).0@),
        decreases per_file@.len() - i,
    {
        lows.push(is_low_signal_path(per_file[i].0.as_str()));
        i = i + 1;
    }
    let sig = select_indices(per_file, &lows, false);
    let low = select_indices(per_file, &lows, true);
    proof {
        lemma_select_len(pf);
    }
    let mut sections: Vec<Vec<char>> = Vec::new();
    let mut remaining = rem;
    let mut omitted: usize = 0;
    assert(vtexts(sections@) =~= Seq::<Seq<char>>::empty());
    let ghost st0 = BudgetState { sections: seq![], remaining: rem as nat, omitted: 0, safe: true };
    let ok1 = run_pass(per_file, &sig, true, &mut sections, &mut remaining, &mut omitted);
    let ghost st1 = BudgetState { sections: vtexts(sections@), remaining: remaining as nat, omitted: omitted as nat, safe: ok1 };
    assert(signal_pass(st0, select(pf, false)) == st1);
    if !ok1 {
        proof {
            lemma_passes_unsafe(st1, select(pf, true));
        }
        return None;
    }
    let ok2 = run_pass(per_file, &low, false, &mut sections, &mut remaining, &mut omitted);
    let ghost st2 = BudgetState { sections: vtexts(sections@), remaining: remaining as nat, omitted: omitted as nat, safe: ok2 };
    assert(budget_run(stat@, pf, rem as nat) == st2);
    if !ok2 {
        return None;
    }
    if sections.len() == 0 {
        return Some(None);
    }
    let mut out = header;
    push_joined(&mut out, &sections, "\n");
    if omitted > 0 {
        push_all(&mut out, &omission_chars(omitted, per_file.len()));
    } else {
        assert(out@ + Seq::<char>::empty() =~= out@);
    }
    Some(Some(string_of(&out)))
}

} // verus!

verus! {

// ---------------------------------------------------------------------------
// The budget is kept
// ---------------------------------------------------------------------------

/// Byte length of the joined sections.
pub open spec fn joined_len(ss: Seq<Seq<char>>) -> nat {
    blen(join(ss, "\n"@))
}

/// What the passes keep: tokens of the joined sections plus what is left
/// never exceed the hunk budget.
pub open spec fn budget_inv(st: BudgetState, r0: nat) -> bool {
    est(joined_len(st.sections)) + st.remaining <= r0
}

proof fn lemma_newline_blen()
    ensures
        blen("\n"@) == 1,
        "\n"@ == seq!['\n'],
{
    reveal_strlit("\n");
    assert("\n"@ =~= seq!['\n']);
    crate::text::lemma_blen_char('\n');
}

proof fn lemma_marker_tokens()
    ensures
        blen(marker()) == 21,
        tokens(marker()) == 7,
{
    reveal_strlit("... [hunks truncated]");
    crate::text::lemma_blen_ascii(marker());
}

/// `trim_end` keeps a prefix.
proof fn lemma_trim_end_prefix(s: Seq<char>)
    ensures
        trim_end(s).len() <= s.len(),
        trim_end(s) == s.subrange(0, trim_end(s).len() as int),
    decreases s.len(),
{
    if s.len() > 0 && crate::text::is_ws(s.last()) {
        lemma_trim_end_prefix(s.drop_last());
        assert(s.drop_last().subrange(0, trim_end(s).len() as int) =~= s.subrange(0, trim_end(s).len() as int));
    } else {
        assert(s.subrange(0, s.len() as int) =~= s);
    }
}

proof fn lemma_prefix_blen(s: Seq<char>, k: int)
    requires
        0 <= k <= s.len(),
    ensures
        blen(s.subrange(0, k)) <= blen(s),
{
    assert(s =~= s.subrange(0, k) + s.subrange(k, s.len() as int));
    crate::text::lemma_blen_concat(s.subrange(0, k), s.subrange(k, s.len() as int));
}

/// An appended section costs no more than its cap.
proof fn lemma_section_cost(diff: Seq<char>, cap: nat)
    requires
        section_outcome(diff, cap) matches Some(Some(_)),
    ensures
        section_outcome(diff, cap) matches Some(Some(s)) && tokens(s) + 1 <= cap,
{
    lemma_marker_tokens();
    if tokens(diff) + 1 <= cap {
    } else {
        let lim = (cap - 8) as nat;
        let t = truncate_chars(diff, lim);
        crate::token::lemma_truncate_props(diff, lim);
        lemma_trim_end_prefix(t);
        lemma_prefix_blen(t, trim_end(t).len() as int);
        lemma_newline_blen();
        let s = trim_end(t) + "\n"@ + marker();
        crate::text::lemma_blen_concat(trim_end(t), "\n"@);
        crate::text::lemma_blen_concat(trim_end(t) + "\n"@, marker());
        crate::token::lemma_est_mono(blen(s), blen(t) + 22);
        crate::token::lemma_est_add(blen(t), 22);
    }
}

/// Joining one more section adds its bytes and a newline.
proof fn lemma_join_push(ss: Seq<Seq<char>>, s: Seq<char>)
    ensures
        ss.len() == 0 ==> joined_len(ss.push(s)) == blen(s),
        ss.len() > 0 ==> joined_len(ss.push(s)) == joined_len(ss) + 1 + blen(s),
{
    lemma_newline_blen();
    let p = ss.push(s);
    assert(p.drop_last() =~= ss);
    if ss.len() == 0 {
        assert(join(p, "\n"@) == p[0]);
    } else {
        assert(join(p, "\n"@) == join(ss, "\n"@) + "\n"@ + s);
        crate::text::lemma_blen_concat(join(ss, "\n"@), "\n"@);
        crate::text::lemma_blen_concat(join(ss, "\n"@) + "\n"@, s);
    }
}

proof fn lemma_offer_inv(st: BudgetState, diff: Seq<char>, cap: nat, r0: nat)
    requires
        st.safe,
        budget_inv(st, r0),
        cap <= st.remaining,
    ensures
        offer(st, diff, cap).safe ==> budget_inv(offer(st, diff, cap), r0),
        offer(st, diff, cap).omitted <= st.omitted + 1,
{
    if st.remaining >= FLOOR_TOKENS {
        if let Some(Some(s)) = section_outcome(diff, cap) {
            lemma_section_cost(diff, cap);
            lemma_join_push(st.sections, s);
            let j = joined_len(st.sections);
            if st.sections.len() > 0 {
                crate::token::lemma_est_add(j, 1 + blen(s));
                crate::token::lemma_est_add(blen(s), 1);
                assert(1 + blen(s) == blen(s) + 1);
            }
        }
    }
}

proof fn lemma_signal_pass_inv(st: BudgetState, ds: Seq<Seq<char>>, r0: nat)
    requires
        st.safe,
        budget_inv(st, r0),
    ensures
        signal_pass(st, ds).safe ==> budget_inv(signal_pass(st, ds), r0),
        signal_pass(st, ds).omitted <= st.omitted + ds.len(),
    decreases ds.len(),
{
    if ds.len() > 0 {
        let cap = signal_cap(st.remaining, ds.len());
        lemma_offer_inv(st, ds[0], cap, r0);
        let st2 = offer(st, ds[0], cap);
        if st2.safe {
            lemma_signal_pass_inv(st2, ds.drop_first(), r0);
        } else {
            lemma_passes_unsafe(st2, ds.drop_first());
        }
    }
}

proof fn lemma_low_pass_inv(st: BudgetState, ds: Seq<Seq<char>>, r0: nat)
    requires
        st.safe,
        budget_inv(st, r0),
    ensures
        low_pass(st, ds).safe ==> budget_inv(low_pass(st, ds), r0),
        low_pass(st, ds).omitted <= st.omitted + ds.len(),
    decreases ds.len(),
{
    if ds.len() > 0 {
        lemma_offer_inv(st, ds[0], st.remaining, r0);
        let st2 = offer(st, ds[0], st.remaining);
        if st2.safe {
            lemma_low_pass_inv(st2, ds.drop_first(), r0);
        } else {
            lemma_passes_unsafe(st2, ds.drop_first());
        }
    }
}

/// `10^k`.
pub open spec fn pow10(k: nat) -> nat
    decreases k,
{
    if k == 0 { 1 } else { 10 * pow10((k - 1) as nat) }
}

proof fn lemma_dec_len(n: nat, k: nat)
    requires
        k >= 1,
        n < pow10(k),
    ensures
        dec(n).len() <= k,
    decreases k,
{
    if n >= 10 {
        assert(k >= 2) by {
            if k == 1 {
                assert(pow10(1) == 10 * pow10(0));
            }
        }
        let p = pow10((k - 1) as nat);
        assert(pow10(k) == 10 * p);
        assert(n / 10 < p) by (nonlinear_arith)
            requires n < 10 * p;
        lemma_dec_len(n / 10, (k - 1) as nat);
    }
}

proof fn lemma_omission_tokens(omitted: nat, files: nat)
    requires
        omitted <= files,
        files < 10_000_000_000,
    ensures
        tokens(omission_line(omitted, files)) <= OMISSION_RESERVE,
{
    reveal_strlit("\n[hunks omitted for ");
    reveal_strlit(" of ");
    reveal_strlit(" files ");
    reveal_strlit(" see file list above]");
    assert(pow10(10) == 10_000_000_000) by {
        reveal_with_fuel(pow10, 11);
    }
    lemma_dec_len(files, 10);
    lemma_dec_len(omitted, 10);
    crate::text::lemma_dec_ascii(omitted);
    crate::text::lemma_dec_ascii(files);
    let a = "\n[hunks omitted for "@;
    let b = " of "@;
    let c = " files "@;
    let d = " see file list above]"@;
    crate::text::lemma_blen_ascii(a);
    crate::text::lemma_blen_ascii(b);
    crate::text::lemma_blen_ascii(c);
    crate::text::lemma_blen_ascii(d);
    crate::text::lemma_blen_ascii(dec(omitted));
    crate::text::lemma_blen_ascii(dec(files));
    crate::text::lemma_blen_char('\u{2014}');
    crate::text::lemma_blen_concat(a, dec(omitted));
    crate::text::lemma_blen_concat(a + dec(omitted), b);
    crate::text::lemma_blen_concat(a + dec(omitted) + b, dec(files));
    crate::text::lemma_blen_concat(a + dec(omitted) + b + dec(files), c);
    crate::text::lemma_blen_concat(a + dec(omitted) + b + dec(files) + c, seq!['\u{2014}']);
    crate::text::lemma_blen_concat(a + dec(omitted) + b + dec(files) + c + seq!['\u{2014}'], d);
    crate::token::lemma_est_mono(blen(omission_line(omitted, files)), 75);
}

/// The budgeted diff never exceeds the token budget (given fewer than ten
/// billion files, so that the omission line fits its reserve).
pub proof fn lemma_budgeted_fits(stat: Seq<char>, pf: Seq<(Seq<char>, Seq<char>)>, max: nat)
    requires
        pf.len() < 10_000_000_000,
        budgeted_safe(stat, pf, max),
        budgeted_text(stat, pf, max) is Some,
    ensures
        tokens(budgeted_text(stat, pf, max).unwrap()) <= max,
{
    let header = budget_header(stat);
    let rem = hunk_budget(stat, max).unwrap();
    let st0 = BudgetState { sections: seq![], remaining: rem, omitted: 0, safe: true };
    assert(join(Seq::<Seq<char>>::empty(), "\n"@) == Seq::<char>::empty());
    assert(blen(Seq::<char>::empty()) == 0);
    assert(budget_inv(st0, rem));
    lemma_select_len(pf);
    lemma_signal_pass_inv(st0, select(pf, false), rem);
    let st1 = signal_pass(st0, select(pf, false));
    if !st1.safe {
        lemma_passes_unsafe(st1, select(pf, true));
        assert(false);
    }
    lemma_low_pass_inv(st1, select(pf, true), rem);
    let st = budget_run(stat, pf, rem);
    let j = join(st.sections, "\n"@);
    let body = header + j;
    crate::text::lemma_blen_concat(header, j);
    crate::token::lemma_est_add(blen(header), blen(j));
    if st.omitted > 0 {
        let om = omission_line(st.omitted, pf.len());
        lemma_omission_tokens(st.omitted, pf.len());
        crate::text::lemma_blen_concat(body, om);
        crate::token::lemma_est_add(blen(body), blen(om));
    } else {
        assert(body + Seq::<char>::empty() =~= body);
    }
}

} // verus!

verus! {

// ---------------------------------------------------------------------------
// Public builders
// ---------------------------------------------------------------------------

/// Build a budgeted diff from relevance-ranked per-file `(path, compact
/// diff)` pairs (see `budgeted_text`): `None` when there are no files, when
/// the stat header leaves no usable budget for hunks, or when no hunk fits;
/// callers then fall back to stat. The result never exceeds `max_tokens`.
pub fn build_budgeted(stat: &str, per_file: &[(String, String)], max_tokens: usize) -> (r: Option<String>)
    requires
        budgeted_safe(stat@, pairs(per_file@), max_tokens as nat),
    ensures
        r matches Some(s) ==> budgeted_text(stat@, pairs(per_file@), max_tokens as nat) == Some(s@),
        r is None ==> budgeted_text(stat@, pairs(per_file@), max_tokens as nat) is None,
        r matches Some(s) ==> (per_file@.len() < 10_000_000_000 ==> tokens(s@) <= max_tokens),
{
    match budget_core(stat, per_file, max_tokens) {
        Some(x) => {
            proof {
                if x is Some && per_file@.len() < 10_000_000_000 {
                    lemma_budgeted_fits(stat@, pairs(per_file@), max_tokens as nat);
                }
            }
            x
        },
        None => None,
    }
}

/// Does every cut of `build_budgeted` fall on a character boundary? When it
/// does not, `build_budgeted` may not be called (the slice would panic).
pub fn budgeted_cuts_fit_chars(stat: &str, per_file: &[(String, String)], max_tokens: usize) -> (b: bool)
    ensures
        b == budgeted_safe(stat@, pairs(per_file@), max_tokens as nat),
{
    budget_core(stat, per_file, max_tokens).is_some()
}

/// `build_budgeted` where it is defined, `None` where a cut would split a
/// character.
pub fn build_budgeted_checked(stat: &str, per_file: &[(String, String)], max_tokens: usize) -> (r: Option<Option<String>>)
    ensures
        r is Some <==> budgeted_safe(stat@, pairs(per_file@), max_tokens as nat),
        r matches Some(Some(s)) ==> budgeted_text(stat@, pairs(per_file@), max_tokens as nat) == Some(s@),
        r matches Some(None) ==> budgeted_text(stat@, pairs(per_file@), max_tokens as nat) is None,
{
    if budgeted_cuts_fit_chars(stat, per_file, max_tokens) {
        Some(build_budgeted(stat, per_file, max_tokens))
    } else {
        None
    }
}

/// Header plus body, as `format_with_stat_header` builds it.
pub open spec fn with_stat_header(stat: Seq<char>, body: Seq<char>) -> Seq<char> {
    if stat.len() == 0 {
        body
    } else if body.len() == 0 {
        stat
    } else {
        "Files changed (ranked by relevance):\n"@ + stat + "\n\n--- diff (most relevant first) ---\n"@ + body
    }
}

/// Wrap a diff body with the ranked stat header, so that the model sees the
/// list of changed files even when the body is truncated later: the body
/// alone without a stat, the stat alone without a body.
pub fn format_with_stat_header(stat: &str, diff_body: &str) -> (r: String)
    ensures
        r@ == with_stat_header(stat@, diff_body@),
{
    let s = chars_of(stat);
    let b = chars_of(diff_body);
    if s.len() == 0 {
        return diff_body.to_owned();
    }
    if b.len() == 0 {
        return stat.to_owned();
    }
    let mut out = chars_of("Files changed (ranked by relevance):\n");
    push_all(&mut out, &s);
    push_str(&mut out, "\n\n--- diff (most relevant first) ---\n");
    push_all(&mut out, &b);
    string_of(&out)
}

/// The compact body: the non-empty per-file diffs joined by newlines.
pub open spec fn compact_body(pf: Seq<(Seq<char>, Seq<char>)>) -> Seq<char> {
    join(crate::git::nonempty(pf.map_values(|p: (Seq<char>, Seq<char>)| p.1)), "\n"@)
}

fn compact_body_exec(per_file: &[(String, String)]) -> (r: String)
    ensures
        r@ == compact_body(pairs(per_file@)),
{
    let mut parts: Vec<String> = Vec::new();
    let mut i: usize = 0;
    let ghost ds = pairs(per_file@).map_values(|p: (Seq<char>, Seq<char>)| p.1);
    while i < per_file.len()
        invariant
            i <= per_file@.len(),
            ds == pairs(per_file@).map_values(|p: (Seq<char>, Seq<char>)| p.1),
            crate::git::texts(parts@) == ds.take(i as int),
        decreases per_file@.len() - i,
    {
        let ghost before = crate::git::texts(parts@);
        parts.push(per_file[i].1.clone());
        proof {
            assert(crate::git::texts(parts@) =~= before.push(per_file@[i as int].1@));
            assert(ds.take(i + 1) =~= ds.take(i as int).push(ds[i as int]));
        }
        i = i + 1;
    }
    assert(ds.take(i as int) =~= ds);
    proof { lemma_newline_blen(); }
    crate::git::staged_diff_for_files(&parts)
}

/// The diff and the mode actually produced for a forced mode.
pub open spec fn forced_diff(
    stat: Seq<char>,
    pf: Seq<(Seq<char>, Seq<char>)>,
    full_body: Seq<char>,
    mode: DiffMode,
    max: nat,
) -> (Seq<char>, DiffMode) {
    match mode {
        DiffMode::Stat => (truncate_chars(stat, max), DiffMode::Stat),
        DiffMode::Budgeted => match budgeted_text(stat, pf, max) {
            Some(t) => (t, DiffMode::Budgeted),
            None => (truncate_chars(stat, max), DiffMode::Stat),
        },
        DiffMode::Full => (with_stat_header(stat, full_body), DiffMode::Full),
        DiffMode::Compact => (with_stat_header(stat, compact_body(pf)), DiffMode::Compact),
    }
}

/// Every cut that `get_forced_diff` makes falls on a character boundary.
pub open spec fn forced_safe(stat: Seq<char>, pf: Seq<(Seq<char>, Seq<char>)>, mode: DiffMode, max: nat) -> bool {
    match mode {
        DiffMode::Stat => truncation_safe(stat, max),
        DiffMode::Budgeted => budgeted_safe(stat, pf, max)
            && (budgeted_text(stat, pf, max) is None ==> truncation_safe(stat, max)),
        _ => true,
    }
}

/// The diff for a specific mode, from the ranked stat header, the
/// relevance-ranked per-file compact diffs and the full body. Returns the
/// text and the mode actually produced: a budgeted diff that is not viable
/// within `max_tokens` degrades to the stat truncated to the budget, labelled
/// `Stat`, so that retries terminate.
pub fn get_forced_diff(
    stat: &str,
    per_file: &[(String, String)],
    full_body: &str,
    mode: DiffMode,
    max_tokens: usize,
) -> (r: (String, DiffMode))
    requires
        forced_safe(stat@, pairs(per_file@), mode, max_tokens as nat),
    ensures
        (r.0@, r.1) == forced_diff(stat@, pairs(per_file@), full_body@, mode, max_tokens as nat),
        mode_rank(r.1) <= mode_rank(mode),
        r.1 == DiffMode::Stat || r.1 == DiffMode::Budgeted ==> tokens(r.0@) <= max_tokens
            || per_file@.len() >= 10_000_000_000,
{
    match mode {
        DiffMode::Stat => (truncate_to_tokens(stat, max_tokens), DiffMode::Stat),
        DiffMode::Budgeted => match build_budgeted(stat, per_file, max_tokens) {
            Some(t) => (t, DiffMode::Budgeted),
            None => (truncate_to_tokens(stat, max_tokens), DiffMode::Stat),
        },
        DiffMode::Full => (format_with_stat_header(stat, full_body), DiffMode::Full),
        DiffMode::Compact => {
            let body = compact_body_exec(per_file);
            (format_with_stat_header(stat, body.as_str()), DiffMode::Compact)
        },
    }
}

/// Does every cut of `get_forced_diff` fall on a character boundary?
pub fn forced_cuts_fit_chars(stat: &str, per_file: &[(String, String)], mode: DiffMode, max_tokens: usize) -> (b: bool)
    ensures
        b == forced_safe(stat@, pairs(per_file@), mode, max_tokens as nat),
{
    match mode {
        DiffMode::Stat => crate::token::truncation_is_safe(stat, max_tokens),
        DiffMode::Budgeted => match budget_core(stat, per_file, max_tokens) {
            None => false,
            Some(Some(_)) => true,
            Some(None) => crate::token::truncation_is_safe(stat, max_tokens),
        },
        _ => true,
    }
}

/// Why a diff could not be chosen.
#[derive(Debug, PartialEq, Eq)]
pub enum DiffError {
    /// The configured diff mode is not one of `auto`, `full`, `compact`,
    /// `budgeted`, `stat`.
    UnknownMode(String),
}

impl DiffError {
    /// The message shown to the user: `unknown diff mode: <mode>`.
    pub fn message(&self) -> (s: String)
        ensures
            match self {
                DiffError::UnknownMode(m) => s@ == "unknown diff mode: "@ + m@,
            },
    {
        match self {
            DiffError::UnknownMode(m) => {
                let mut out = chars_of("unknown diff mode: ");
                push_str(&mut out, m.as_str());
                string_of(&out)
            },
        }
    }
}

/// What `fit_diff` returns: for a forced mode, that mode's diff; for
/// `auto`, the first of full, compact, budgeted that fits `max`, else the
/// stat truncated to `max`.
pub open spec fn fitted_diff(
    stat: Seq<char>,
    pf: Seq<(Seq<char>, Seq<char>)>,
    full_body: Seq<char>,
    max: nat,
    forced: Seq<char>,
) -> Result<(Seq<char>, DiffMode), Seq<char>> {
    if forced != "auto"@ {
        if exists|m: DiffMode| mode_name(m) == forced {
            let m = choose|m: DiffMode| mode_name(m) == forced;
            Ok(forced_diff(stat, pf, full_body, m, max))
        } else {
            Err(forced)
        }
    } else {
        let full = with_stat_header(stat, full_body);
        let compact = with_stat_header(stat, compact_body(pf));
        if tokens(full) <= max {
            Ok((full, DiffMode::Full))
        } else if tokens(compact) <= max {
            Ok((compact, DiffMode::Compact))
        } else {
            match budgeted_text(stat, pf, max) {
                Some(t) => Ok((t, DiffMode::Budgeted)),
                None => Ok((truncate_chars(stat, max), DiffMode::Stat)),
            }
        }
    }
}

/// Every cut that `fit_diff` makes falls on a character boundary.
pub open spec fn fit_safe(
    stat: Seq<char>,
    pf: Seq<(Seq<char>, Seq<char>)>,
    full_body: Seq<char>,
    max: nat,
    forced: Seq<char>,
) -> bool {
    if forced != "auto"@ {
        forall|m: DiffMode| mode_name(m) == forced ==> forced_safe(stat, pf, m, max)
    } else {
        tokens(with_stat_header(stat, full_body)) <= max
            || tokens(with_stat_header(stat, compact_body(pf))) <= max
            || forced_safe(stat, pf, DiffMode::Budgeted, max)
    }
}

/// The automatic choice walks the ladder full, compact, budgeted, stat and
/// takes the first rung that fits: the full diff when it fits; otherwise
/// the compact diff when it fits; a budgeted or stat diff only when neither
/// fits. When the full or the compact diff fits, nothing is cut, so the
/// choice can always be made.
pub proof fn lemma_auto_ladder(stat: Seq<char>, pf: Seq<(Seq<char>, Seq<char>)>, full_body: Seq<char>, max: nat)
    ensures
        ({
            let r = fitted_diff(stat, pf, full_body, max, "auto"@);
            let full = with_stat_header(stat, full_body);
            let compact = with_stat_header(stat, compact_body(pf));
            &&& r is Ok
            &&& tokens(full) <= max ==> r == Ok::<(Seq<char>, DiffMode), Seq<char>>((full, DiffMode::Full))
            &&& tokens(full) > max && tokens(compact) <= max ==> r == Ok::<(Seq<char>, DiffMode), Seq<char>>(
                (compact, DiffMode::Compact),
            )
            &&& match r {
                Ok((t, m)) => {
                    &&& (m == DiffMode::Budgeted || m == DiffMode::Stat) ==> tokens(full) > max && tokens(compact) > max
                    &&& m == DiffMode::Full ==> t == full
                    &&& m == DiffMode::Compact ==> t == compact
                },
                Err(_) => false,
            }
            &&& (tokens(full) <= max || tokens(compact) <= max) ==> fit_safe(stat, pf, full_body, max, "auto"@)
            &&& tokens(full) > max && tokens(compact) > max ==> r == match budgeted_text(stat, pf, max) {
                Some(t) => Ok::<(Seq<char>, DiffMode), Seq<char>>((t, DiffMode::Budgeted)),
                None => Ok::<(Seq<char>, DiffMode), Seq<char>>((truncate_chars(stat, max), DiffMode::Stat)),
            }
        }),
{
}

proof fn lemma_mode_name_injective(a: DiffMode, b: DiffMode)
    requires
        mode_name(a) == mode_name(b),
    ensures
        a == b,
{
    reveal_strlit("full");
    reveal_strlit("compact");
    reveal_strlit("budgeted");
    reveal_strlit("stat");
    assert("full"@.len() == 4 && "full"@[0] == 'f');
    assert("stat"@.len() == 4 && "stat"@[0] == 's');
    assert("compact"@.len() == 7);
    assert("budgeted"@.len() == 8);
}

/// Choose the diff sent to the model. With `forced_mode` other than
/// `"auto"`, that mode's diff (an unknown name is an error). Otherwise walk
/// the ladder full, compact, budgeted, stat and return the first variant that
/// fits `max_tokens`, with the mode produced. Inputs: the ranked stat header,
/// the relevance-ranked per-file compact diffs, and the full diff body of the
/// ranked files.
pub fn fit_diff(
    stat: &str,
    per_file: &[(String, String)],
    full_body: &str,
    max_tokens: usize,
    forced_mode: &str,
) -> (r: Result<(String, DiffMode), DiffError>)
    requires
        fit_safe(stat@, pairs(per_file@), full_body@, max_tokens as nat, forced_mode@),
    ensures
        match r {
            Ok((s, m)) => fitted_diff(stat@, pairs(per_file@), full_body@, max_tokens as nat, forced_mode@)
                == Ok::<(Seq<char>, DiffMode), Seq<char>>((s@, m)),
            Err(DiffError::UnknownMode(name)) => name@ == forced_mode@
                && fitted_diff(stat@, pairs(per_file@), full_body@, max_tokens as nat, forced_mode@)
                == Err::<(Seq<char>, DiffMode), Seq<char>>(forced_mode@),
        },
        r matches Ok((s, m)) ==> ((forced_mode@ == "auto"@ || m == DiffMode::Budgeted || m == DiffMode::Stat)
            && per_file@.len() < 10_000_000_000 ==> tokens(s@) <= max_tokens),
{
    let f = chars_of(forced_mode);
    let auto = chars_of("auto");
    let n = f.len();
    let is_auto = crate::text::range_eq(&f, 0, n, &auto);
    assert(f@.subrange(0, n as int) =~= f@);
    if !is_auto {
        match DiffMode::from_name(forced_mode) {
            Some(m) => {
                proof {
                    assert forall|x: DiffMode| mode_name(x) == forced_mode@ implies x == m by {
                        lemma_mode_name_injective(x, m);
                    }
                }
                return Ok(get_forced_diff(stat, per_file, full_body, m, max_tokens));
            },
            None => {
                return Err(DiffError::UnknownMode(forced_mode.to_owned()));
            },
        }
    }
    let full = format_with_stat_header(stat, full_body);
    if crate::token::estimate_tokens(full.as_str()) <= max_tokens {
        return Ok((full, DiffMode::Full));
    }
    let body = compact_body_exec(per_file);
    let compact = format_with_stat_header(stat, body.as_str());
    if crate::token::estimate_tokens(compact.as_str()) <= max_tokens {
        return Ok((compact, DiffMode::Compact));
    }
    match build_budgeted(stat, per_file, max_tokens) {
        Some(t) => Ok((t, DiffMode::Budgeted)),
        None => Ok((truncate_to_tokens(stat, max_tokens), DiffMode::Stat)),
    }
}


/// `get_forced_diff` where every cut falls on a character boundary, `None`
/// where one would split a character.
pub fn get_forced_diff_checked(
    stat: &str,
    per_file: &[(String, String)],
    full_body: &str,
    mode: DiffMode,
    max_tokens: usize,
) -> (r: Option<(String, DiffMode)>)
    ensures
        r is Some <==> forced_safe(stat@, pairs(per_file@), mode, max_tokens as nat),
        r matches Some(x) ==> (x.0@, x.1) == forced_diff(stat@, pairs(per_file@), full_body@, mode, max_tokens as nat),
{
    if forced_cuts_fit_chars(stat, per_file, mode, max_tokens) {
        Some(get_forced_diff(stat, per_file, full_body, mode, max_tokens))
    } else {
        None
    }
}

/// Does every cut of `fit_diff` fall on a character boundary?
pub fn fit_cuts_fit_chars(
    stat: &str,
    per_file: &[(String, String)],
    full_body: &str,
    max_tokens: usize,
    forced_mode: &str,
) -> (b: bool)
    ensures
        b == fit_safe(stat@, pairs(per_file@), full_body@, max_tokens as nat, forced_mode@),
{
    let f = chars_of(forced_mode);
    let auto = chars_of("auto");
    let n = f.len();
    let is_auto = crate::text::range_eq(&f, 0, n, &auto);
    assert(f@.subrange(0, n as int) =~= f@);
    if !is_auto {
        match DiffMode::from_name(forced_mode) {
            Some(m) => {
                proof {
                    assert forall|x: DiffMode| mode_name(x) == forced_mode@ implies x == m by {
                        lemma_mode_name_injective(x, m);
                    }
                }
                return forced_cuts_fit_chars(stat, per_file, m, max_tokens);
            },
            None => {
                return true;
            },
        }
    }
    let full = format_with_stat_header(stat, full_body);
    if crate::token::estimate_tokens(full.as_str()) <= max_tokens {
        return true;
    }
    let body = compact_body_exec(per_file);
    let compact = format_with_stat_header(stat, body.as_str());
    if crate::token::estimate_tokens(compact.as_str()) <= max_tokens {
        return true;
    }
    forced_cuts_fit_chars(stat, per_file, DiffMode::Budgeted, max_tokens)
}

/// `fit_diff` where every cut falls on a character boundary, `None` where
/// one would split a character.
pub fn fit_diff_checked(
    stat: &str,
    per_file: &[(String, String)],
    full_body: &str,
    max_tokens: usize,
    forced_mode: &str,
) -> (r: Option<Result<(String, DiffMode), DiffError>>)
    ensures
        r is Some <==> fit_safe(stat@, pairs(per_file@), full_body@, max_tokens as nat, forced_mode@),
        r matches Some(x) ==> match x {
            Ok((s, m)) => fitted_diff(stat@, pairs(per_file@), full_body@, max_tokens as nat, forced_mode@)
                == Ok::<(Seq<char>, DiffMode), Seq<char>>((s@, m)),
            Err(DiffError::UnknownMode(name)) => name@ == forced_mode@
                && fitted_diff(stat@, pairs(per_file@), full_body@, max_tokens as nat, forced_mode@)
                == Err::<(Seq<char>, DiffMode), Seq<char>>(forced_mode@),
        },
{
    if fit_cuts_fit_chars(stat, per_file, full_body, max_tokens, forced_mode) {
        Some(fit_diff(stat, per_file, full_body, max_tokens, forced_mode))
    } else {
        None
    }
}


/// The per-file compact diffs in ranked order: each ranked file paired with
/// what `git diff --cached --unified=0 -- <file>` printed for it.
pub fn per_file_compact_diffs(ranked: &Vec<String>, outputs: &Vec<String>) -> (r: Vec<(String, String)>)
    requires
        ranked@.len() == outputs@.len(),
    ensures
        pairs(r@) == Seq::new(ranked@.len(), |i: int| (ranked@[i]@, outputs@[i]@)),
{
    let mut r: Vec<(String, String)> = Vec::new();
    let mut i: usize = 0;
    while i < ranked.len()
        invariant
            ranked@.len() == outputs@.len(),
            i <= ranked@.len(),
            pairs(r@) == Seq::new(i as nat, |k: int| (ranked@[k]@, outputs@[k]@)),
        decreases ranked@.len() - i,
    {
        let ghost before = pairs(r@);
        let a = ranked[i].as_str().to_owned();
        let b = outputs[i].as_str().to_owned();
        r.push((a, b));
        assert(pairs(r@) =~= before.push((ranked@[i as int]@, outputs@[i as int]@)));
        assert(pairs(r@) =~= Seq::new((i + 1) as nat, |k: int| (ranked@[k]@, outputs@[k]@)));
        i = i + 1;
    }
    assert(pairs(r@) =~= Seq::new(ranked@.len(), |i: int| (ranked@[i]@, outputs@[i]@)));
    r
}

/// An offer that keeps the cuts safe either adds a section or counts the
/// file as omitted.
proof fn lemma_offer_count(st: BudgetState, diff: Seq<char>, cap: nat)
    ensures
        offer(st, diff, cap).safe ==> offer(st, diff, cap).sections.len() + offer(st, diff, cap).omitted
            == st.sections.len() + st.omitted + 1,
{
}

/// Each pass accounts for every file it visits.
proof fn lemma_pass_count(st: BudgetState, ds: Seq<Seq<char>>)
    requires
        st.safe,
    ensures
        signal_pass(st, ds).safe ==> signal_pass(st, ds).sections.len() + signal_pass(st, ds).omitted
            == st.sections.len() + st.omitted + ds.len(),
        low_pass(st, ds).safe ==> low_pass(st, ds).sections.len() + low_pass(st, ds).omitted
            == st.sections.len() + st.omitted + ds.len(),
    decreases ds.len(),
{
    if ds.len() > 0 {
        let a = offer(st, ds[0], signal_cap(st.remaining, ds.len()));
        let b = offer(st, ds[0], st.remaining);
        lemma_offer_count(st, ds[0], signal_cap(st.remaining, ds.len()));
        lemma_offer_count(st, ds[0], st.remaining);
        if a.safe {
            lemma_pass_count(a, ds.drop_first());
        } else {
            lemma_passes_unsafe(a, ds.drop_first());
        }
        if b.safe {
            lemma_pass_count(b, ds.drop_first());
        } else {
            lemma_passes_unsafe(b, ds.drop_first());
        }
    }
}

/// Every file is accounted for in a budgeted diff: its hunks are in it as
/// a section, or it is counted in the omission line.
pub proof fn lemma_every_file_accounted(stat: Seq<char>, pf: Seq<(Seq<char>, Seq<char>)>, rem: nat)
    requires
        budget_run(stat, pf, rem).safe,
    ensures
        budget_run(stat, pf, rem).sections.len() + budget_run(stat, pf, rem).omitted == pf.len(),
{
    let st0 = BudgetState { sections: seq![], remaining: rem, omitted: 0, safe: true };
    let st1 = signal_pass(st0, select(pf, false));
    lemma_pass_count(st0, select(pf, false));
    lemma_select_len(pf);
    if st1.safe {
        lemma_pass_count(st1, select(pf, true));
    } else {
        lemma_passes_unsafe(st1, select(pf, true));
    }
}
} // verus!
