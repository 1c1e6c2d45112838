//! The system prompt sent to the model, and the cleanup of what it returns:
//! reasoning spans, wrapping quotes, code fences, preamble and trailing
//! commentary are removed.
use vstd::prelude::*;
use crate::text::{
    ascii_lower, to_ascii_lower, chars_of, string_of, find_char, lemma_find_char_props, find_in_range,
    has_char, push_range, push_str, push_joined, trim, trim_range, blen, byte_len, starts_with,
    ends_with, range_starts_with, range_ends_with, range_eq, lowercase, lower_range, lines, line_ranges,
    ranges_match, join, vtexts,
};
use crate::config::Config;

verus! {

// ---------------------------------------------------------------------------
// System prompt
// ---------------------------------------------------------------------------

/// The lines of the system prompt before the body rules.
pub open spec fn prompt_head(scoped: bool) -> Seq<Seq<char>> {
    seq![
        "You are a git commit message generator. Output ONLY the raw commit message \u{2014} no explanation, no preamble, no markdown fences."@,
        ""@,
        "Rules:"@,
        if scoped { "- Format: <type>(<scope>): <subject>"@ } else { "- Format: <type>: <subject>"@ },
        "- Types: fix, feat, refactor, docs, test, chore, style, perf, build, ci"@,
        "- Pick the type of the primary change \u{2014} the reason this commit exists; feat or fix outweighs accompanying refactor/test/docs/chore work"@,
        "- Subject: imperative, lowercase, no period, max 72 chars, naming the primary change concretely"@,
        "- Never write vague subjects like \"update code\", \"improve handling\", \"various changes\""@,
        "- Describe only what the diff and file list show \u{2014} never invent changes"@,
    ]
}

/// The body rules: a single line, or bullets for several distinct changes.
pub open spec fn prompt_body(one_line: bool) -> Seq<Seq<char>> {
    if one_line {
        seq!["- Output only a single-line commit message, no body"@]
    } else {
        seq![
            "- Body: when the commit contains several distinct changes, add a blank line then 2-6 \"- \" bullets, one per logical change, most important first, each under 72 chars, naming modules and behavior rather than filenames"@,
            "- Omit the body when it would only restate the subject"@,
        ]
    }
}

/// The rules about the shape of the input.
pub open spec fn prompt_input() -> Seq<Seq<char>> {
    seq![
        "- Input may start with a \"Files changed\" list ranked by relevance; hunks may be truncated or omitted \u{2014} use the list to cover all significant changes"@,
        "- Files marked (low-signal) are lockfiles or generated output; mention them only if nothing else changed"@,
    ]
}

/// The lines that depend on the emoji and language settings and the scope.
pub open spec fn prompt_options(emoji: bool, language: Seq<char>, scope: Option<Seq<char>>) -> Seq<Seq<char>> {
    (if emoji { seq!["- Prefix the subject with a relevant emoji"@] } else { seq![] })
        + (if language != "en"@ { seq!["- Write the message in language: "@ + language] } else { seq![] })
        + match scope {
            Some(sc) => seq!["- Detected scope: "@ + sc + " \u{2014} use it unless the changes clearly warrant a different scope"@],
            None => seq![],
        }
}

/// The system prompt: its lines joined by newlines.
pub open spec fn system_prompt(one_line: bool, emoji: bool, language: Seq<char>, scope: Option<Seq<char>>) -> Seq<char> {
    join(
        prompt_head(scope is Some) + prompt_body(one_line) + prompt_input() + prompt_options(emoji, language, scope),
        "\n"@,
    )
}

fn push_line(lines: &mut Vec<Vec<char>>, s: &str)
    ensures
        vtexts(final(lines)@) == vtexts(old(lines)@).push(s@),
{
    let ghost before = vtexts(lines@);
    lines.push(chars_of(s));
    assert(vtexts(lines@) =~= before.push(s@));
}

/// Build the system prompt sent to the model: the format rule (scoped when
/// a scope was detected), the type and subject rules, the body rule (a single
/// line, or bullets), the input rules, then the emoji, language and scope
/// lines where they apply. Short, without examples.
pub fn build_system_prompt(config: &Config, scope: Option<&str>) -> (r: String)
    ensures
        r@ == system_prompt(config.one_line, config.emoji, config.language@,
            match scope { Some(sc) => Some(sc@), None => None }),
{
    let mut lines: Vec<Vec<char>> = Vec::new();
    push_line(&mut lines, "You are a git commit message generator. Output ONLY the raw commit message \u{2014} no explanation, no preamble, no markdown fences.");
    push_line(&mut lines, "");
    push_line(&mut lines, "Rules:");
    match scope {
        Some(_) => push_line(&mut lines, "- Format: <type>(<scope>): <subject>"),
        None => push_line(&mut lines, "- Format: <type>: <subject>"),
    }
    push_line(&mut lines, "- Types: fix, feat, refactor, docs, test, chore, style, perf, build, ci");
    push_line(&mut lines, "- Pick the type of the primary change \u{2014} the reason this commit exists; feat or fix outweighs accompanying refactor/test/docs/chore work");
    push_line(&mut lines, "- Subject: imperative, lowercase, no period, max 72 chars, naming the primary change concretely");
    push_line(&mut lines, "- Never write vague subjects like \"update code\", \"improve handling\", \"various changes\"");
    push_line(&mut lines, "- Describe only what the diff and file list show \u{2014} never invent changes");
    let ghost head = vtexts(lines@);
    if config.one_line {
        push_line(&mut lines, "- Output only a single-line commit message, no body");
    } else {
        push_line(&mut lines, "- Body: when the commit contains several distinct changes, add a blank line then 2-6 \"- \" bullets, one per logical change, most important first, each under 72 chars, naming modules and behavior rather than filenames");
        push_line(&mut lines, "- Omit the body when it would only restate the subject");
    }
    let ghost body = vtexts(lines@);
    push_line(&mut lines, "- Input may start with a \"Files changed\" list ranked by relevance; hunks may be truncated or omitted \u{2014} use the list to cover all significant changes");
    push_line(&mut lines, "- Files marked (low-signal) are lockfiles or generated output; mention them only if nothing else changed");
    let ghost input = vtexts(lines@);
    if config.emoji {
        push_line(&mut lines, "- Prefix the subject with a relevant emoji");
    }
    let ghost emo = vtexts(lines@);
    let lang = chars_of(config.language.as_str());
    let ln = lang.len();
    assert(lang@.subrange(0, ln as int) =~= lang@);
    if !range_eq(&lang, 0, ln, &chars_of("en")) {
        let mut l = chars_of("- Write the message in language: ");
        push_str(&mut l, config.language.as_str());
        let ghost before = vtexts(lines@);
        lines.push(l);
        assert(vtexts(lines@) =~= before.push("- Write the message in language: "@ + config.language@));
    }
    let ghost lng = vtexts(lines@);
    match scope {
        Some(sc) => {
            let mut l = chars_of("- Detected scope: ");
            push_str(&mut l, sc);
            push_str(&mut l, " \u{2014} use it unless the changes clearly warrant a different scope");
            let ghost before = vtexts(lines@);
            lines.push(l);
            assert(vtexts(lines@) =~= before.push("- Detected scope: "@ + sc@
                + " \u{2014} use it unless the changes clearly warrant a different scope"@));
        },
        None => {},
    }
    proof {
        let sc = match scope { Some(x) => Some(x@), None => None::<Seq<char>> };
        assert(head =~= prompt_head(scope is Some));
        assert(body =~= head + prompt_body(config.one_line));
        assert(input =~= body + prompt_input());
        assert(vtexts(lines@) =~= prompt_head(scope is Some) + prompt_body(config.one_line) + prompt_input()
            + prompt_options(config.emoji, config.language@, sc));
    }
    let mut out: Vec<char> = Vec::new();
    push_joined(&mut out, &lines, "\n");
    assert(out@ =~= system_prompt(config.one_line, config.emoji, config.language@,
        match scope { Some(sc) => Some(sc@), None => None }));
    string_of(&out)
}

// ---------------------------------------------------------------------------
// Think tags
// ---------------------------------------------------------------------------

/// ASCII whitespace (`u8::is_ascii_whitespace`): space, tab, line feed,
/// form feed, carriage return.
pub open spec fn is_ascii_ws(c: char) -> bool {
    c == ' ' || c == '\t' || c == '\n' || c == '\u{0C}' || c == '\r'
}

fn ascii_ws(c: char) -> (b: bool)
    ensures
        b == is_ascii_ws(c),
{
    c == ' ' || c == '\t' || c == '\n' || c == '\u{0C}' || c == '\r'
}

/// `a` equals the lower-case ASCII word `w`, ASCII case ignored.
pub open spec fn ci_eq(a: Seq<char>, w: Seq<char>) -> bool {
    a.len() == w.len() && forall|k: int| 0 <= k < a.len() ==> ascii_lower(#[trigger] a[k]) == w[k]
}

/// `s` holds the lower-case ASCII word `w` at `i`, ASCII case ignored.
pub open spec fn ci_at(s: Seq<char>, i: int, w: Seq<char>) -> bool {
    0 <= i && i + w.len() <= s.len() && ci_eq(s.subrange(i, i + w.len()), w)
}

/// The long tag name.
pub open spec fn thinking() -> Seq<char> {
    seq!['t', 'h', 'i', 'n', 'k', 'i', 'n', 'g']
}

/// The short tag name.
pub open spec fn think() -> Seq<char> {
    seq!['t', 'h', 'i', 'n', 'k']
}

/// The tail that makes the long name out of the short one.
pub open spec fn ing() -> Seq<char> {
    seq!['i', 'n', 'g']
}

/// Where the tag name of a think tag at the start of `s` ends, and whether
/// the tag closes: `<`, an optional `/`, then `thinking` or `think` (ASCII
/// case ignored).
pub open spec fn tag_head(s: Seq<char>) -> Option<(nat, bool)> {
    if s.len() == 0 || s[0] != '<' {
        None
    } else {
        let closing = s.len() > 1 && s[1] == '/';
        let i: int = if closing { 2 } else { 1 };
        if ci_at(s, i, thinking()) {
            Some(((i + 8) as nat, closing))
        } else if ci_at(s, i, think()) {
            Some(((i + 5) as nat, closing))
        } else {
            None
        }
    }
}

/// Length of the tag whose name ends at `j`: right there with `>`, or after
/// ASCII whitespace and attributes at the first `>`, provided no `<` comes
/// before it.
pub open spec fn tag_tail(s: Seq<char>, j: nat) -> Option<nat> {
    if j >= s.len() {
        None
    } else if s[j as int] == '>' {
        Some(j + 1)
    } else if is_ascii_ws(s[j as int]) {
        let rest = s.skip(j as int);
        let gt = find_char(rest, '>');
        if gt >= rest.len() || has_char(rest.take(gt as int), '<') {
            None
        } else {
            Some(j + gt + 1)
        }
    } else {
        None
    }
}

/// The `<think>`/`<thinking>` open or close tag that `s` starts with, if any
/// (case-insensitive; attributes after ASCII whitespace are tolerated up to
/// the first `>`, provided no `<` comes first): its length in characters and
/// whether it closes.
pub open spec fn think_tag(s: Seq<char>) -> Option<(nat, bool)> {
    match tag_head(s) {
        None => None,
        Some((j, closing)) => match tag_tail(s, j) {
            None => None,
            Some(n) => Some((n, closing)),
        },
    }
}

/// A think tag is never empty and never longer than the text.
pub proof fn lemma_think_tag_len(s: Seq<char>)
    ensures
        think_tag(s) matches Some((n, c)) ==> 2 <= n <= s.len(),
{
    if let Some((j, c)) = tag_head(s) {
        if j < s.len() && s[j as int] != '>' && is_ascii_ws(s[j as int]) {
            lemma_find_char_props(s.skip(j as int), '>');
        }
    }
}

/// Does `v[lo..]` hold the lower-case ASCII word `w`, case ignored?
fn ci_range(v: &Vec<char>, lo: usize, w: &Vec<char>) -> (b: bool)
    requires
        lo <= v@.len(),
    ensures
        b == ci_at(v@, lo as int, w@),
{
    let vl = v.len();
    if w.len() > vl - lo {
        return false;
    }
    let mut k: usize = 0;
    while k < w.len()
        invariant
            vl == v@.len(),
            lo + w@.len() <= v@.len(),
            k <= w@.len(),
            forall|t: int| 0 <= t < k ==> ascii_lower(#[trigger] v@.subrange(lo as int, lo + w@.len())[t]) == w@[t],
        decreases w@.len() - k,
    {
        if to_ascii_lower(v[lo + k]) != w[k] {
            assert(v@.subrange(lo as int, lo + w@.len())[k as int] == v@[lo + k]);
            return false;
        }
        assert(v@.subrange(lo as int, lo + w@.len())[k as int] == v@[lo + k]);
        k = k + 1;
    }
    true
}

/// `ci_at` is unchanged by dropping a prefix before the position.
proof fn lemma_ci_at_skip(v: Seq<char>, pos: int, i: int, w: Seq<char>)
    requires
        0 <= pos <= i,
        pos <= v.len(),
    ensures
        ci_at(v, i, w) == ci_at(v.skip(pos), i - pos, w),
{
    if i + w.len() <= v.len() {
        assert(v.subrange(i, i + w.len()) =~= v.skip(pos).subrange(i - pos, i - pos + w.len()));
    }
}

/// The end of the tag name at `v[pos..]` (see `tag_head`), as an index
/// into `v`.
fn head_at(v: &Vec<char>, pos: usize) -> (r: Option<(usize, bool)>)
    requires
        pos <= v@.len(),
    ensures
        r matches Some((j, c)) ==> tag_head(v@.skip(pos as int)) == Some(((j - pos) as nat, c)) && pos < j <= v@.len(),
        r is None ==> tag_head(v@.skip(pos as int)) is None,
{
    let ghost s = v@.skip(pos as int);
    let n = v.len();
    if pos >= n || v[pos] != '<' {
        return None;
    }
    let closing = pos + 1 < n && v[pos + 1] == '/';
    let i: usize = if closing { pos + 2 } else { pos + 1 };
    let long_name = vec!['t', 'h', 'i', 'n', 'k', 'i', 'n', 'g'];
    let short_name = vec!['t', 'h', 'i', 'n', 'k'];
    assert(long_name@ =~= thinking());
    assert(short_name@ =~= think());
    proof {
        lemma_ci_at_skip(v@, pos as int, i as int, thinking());
        lemma_ci_at_skip(v@, pos as int, i as int, think());
    }
    if ci_range(v, i, &long_name) {
        Some((i + 8, closing))
    } else if ci_range(v, i, &short_name) {
        Some((i + 5, closing))
    } else {
        None
    }
}

/// The end of the tag whose name ends at `v[j]` (see `tag_tail`), as an
/// index into `v`.
fn tail_at(v: &Vec<char>, pos: usize, j: usize) -> (r: Option<usize>)
    requires
        pos < j <= v@.len(),
    ensures
        r matches Some(e) ==> tag_tail(v@.skip(pos as int), (j - pos) as nat) == Some((e - pos) as nat) && j < e <= v@.len(),
        r is None ==> tag_tail(v@.skip(pos as int), (j - pos) as nat) is None,
{
    let ghost s = v@.skip(pos as int);
    let n = v.len();
    if j >= n {
        return None;
    }
    assert(s[j - pos] == v@[j as int]);
    if v[j] == '>' {
        return Some(j + 1);
    }
    if !ascii_ws(v[j]) {
        return None;
    }
    let gt = find_in_range(v, j, n, '>');
    proof {
        assert(s.skip(j - pos) =~= v@.subrange(j as int, n as int));
    }
    if gt >= n {
        return None;
    }
    let lt = find_in_range(v, j, gt, '<');
    proof {
        let rest = s.skip(j - pos);
        assert(rest.take((gt - j) as int) =~= v@.subrange(j as int, gt as int));
        if lt < gt {
            assert(rest.take((gt - j) as int)[lt - j] == '<');
        } else {
            assert forall|t: int| 0 <= t < gt - j implies #[trigger] rest.take((gt - j) as int)[t] != '<' by {
                assert(rest.take((gt - j) as int)[t] == v@[j + t]);
            }
        }
    }
    if lt < gt {
        return None;
    }
    Some(gt + 1)
}

/// The think tag at `v[pos..]` (see `think_tag`), its length in characters.
pub fn tag_at(v: &Vec<char>, pos: usize) -> (r: Option<(usize, bool)>)
    requires
        pos <= v@.len(),
    ensures
        r matches Some((n, c)) ==> think_tag(v@.skip(pos as int)) == Some((n as nat, c)) && pos + n <= v@.len(),
        r is None ==> think_tag(v@.skip(pos as int)) is None,
{
    match head_at(v, pos) {
        None => None,
        Some((j, closing)) => match tail_at(v, pos, j) {
            None => None,
            Some(e) => Some((e - pos, closing)),
        },
    }
}

/// Byte length of a prefix never exceeds that of the whole.
proof fn lemma_prefix_blen(s: Seq<char>, k: int)
    requires
        0 <= k <= s.len(),
    ensures
        blen(s.take(k)) <= blen(s),
{
    assert(s =~= s.take(k) + s.skip(k));
    crate::text::lemma_blen_concat(s.take(k), s.skip(k));
}

/// If `s` begins with a `<think>`/`<thinking>` open or close tag
/// (case-insensitive, attributes tolerated), its length in bytes and whether
/// it closes.
pub fn think_tag_at(s: &str) -> (r: Option<(usize, bool)>)
    ensures
        r matches Some((n, c)) ==> think_tag(s@) matches Some((k, c2)) && c == c2 && n == blen(s@.take(k as int)),
        r is None ==> think_tag(s@) is None,
{
    let v = chars_of(s);
    assert(v@.skip(0) =~= v@);
    match tag_at(&v, 0) {
        None => None,
        Some((k, c)) => {
            let total = crate::text::str_len(s);
            let b = byte_len(&v, 0, k);
            proof {
                assert(v@.subrange(0, k as int) =~= v@.take(k as int));
                lemma_prefix_blen(s@, k as int);
            }
            Some((b as usize, c))
        },
    }
}

/// The shorter of two lengths.
pub open spec fn min_len(a: nat, b: nat) -> nat {
    if a < b { a } else { b }
}

/// `s` (starting with `<` and holding no `>`) could still grow into a think
/// tag once more streamed text arrives.
pub open spec fn think_prefix(s: Seq<char>) -> bool {
    if s.len() == 0 || s[0] != '<' || has_char(s, '>') {
        false
    } else {
        let rest = if s.len() > 1 && s[1] == '/' { s.skip(2) } else { s.skip(1) };
        let head = min_len(rest.len(), 5);
        if !ci_eq(rest.take(head as int), think().take(head as int)) {
            false
        } else if rest.len() <= 5 {
            true
        } else {
            let tail = rest.skip(5);
            if is_ascii_ws(tail[0]) {
                true
            } else {
                let il = min_len(tail.len(), 3);
                if !ci_eq(tail.take(il as int), ing().take(il as int)) {
                    false
                } else if tail.len() <= 3 {
                    true
                } else {
                    is_ascii_ws(tail[3])
                }
            }
        }
    }
}

/// Does `v[lo..lo + len]` equal `w[..len]`, ASCII case ignored?
fn ci_prefix(v: &Vec<char>, lo: usize, w: &Vec<char>, len: usize) -> (b: bool)
    requires
        lo + len <= v@.len(),
        len <= w@.len(),
    ensures
        b == ci_eq(v@.subrange(lo as int, lo + len), w@.take(len as int)),
{
    let vl = v.len();
    let mut k: usize = 0;
    while k < len
        invariant
            vl == v@.len(),
            lo + len <= v@.len(),
            len <= w@.len(),
            k <= len,
            forall|t: int| 0 <= t < k ==> ascii_lower(#[trigger] v@.subrange(lo as int, lo + len)[t]) == w@.take(len as int)[t],
        decreases len - k,
    {
        assert(v@.subrange(lo as int, lo + len)[k as int] == v@[lo + k]);
        if to_ascii_lower(v[lo + k]) != w[k] {
            return false;
        }
        k = k + 1;
    }
    true
}

/// True if `s` (starting with `<` and holding no `>`) could still grow into
/// a think tag once more streamed text arrives.
pub fn could_be_think_tag_prefix(s: &str) -> (b: bool)
    ensures
        b == think_prefix(s@),
{
    let v = chars_of(s);
    let n = v.len();
    if n == 0 || v[0] != '<' {
        return false;
    }
    let gt = find_in_range(&v, 0, n, '>');
    assert(v@.subrange(0, n as int) =~= v@);
    if gt < n {
        return false;
    }
    let start: usize = if n > 1 && v[1] == '/' { 2 } else { 1 };
    let ghost rest = v@.skip(start as int);
    let short_name = vec!['t', 'h', 'i', 'n', 'k'];
    let tail_name = vec!['i', 'n', 'g'];
    assert(short_name@ =~= think());
    assert(tail_name@ =~= ing());
    let rl = n - start;
    let head = if rl < 5 { rl } else { 5 };
    assert(rest.take(head as int) =~= v@.subrange(start as int, (start + head) as int));
    if !ci_prefix(&v, start, &short_name, head) {
        return false;
    }
    if rl <= 5 {
        return true;
    }
    let t = start + 5;
    let ghost tail = rest.skip(5);
    assert(tail[0] == v@[t as int]);
    if ascii_ws(v[t]) {
        return true;
    }
    let tl = n - t;
    let il = if tl < 3 { tl } else { 3 };
    assert(tail.take(il as int) =~= v@.subrange(t as int, (t + il) as int));
    if !ci_prefix(&v, t, &tail_name, il) {
        return false;
    }
    if tl <= 3 {
        return true;
    }
    assert(tail[3] == v@[t + 3]);
    ascii_ws(v[t + 3])
}

/// A complete think tag is no longer a prefix still waiting for more text:
/// it holds its closing `>`.
pub proof fn lemma_complete_tag_not_prefix(s: Seq<char>)
    requires
        think_tag(s) matches Some((n, c)) && n == s.len(),
    ensures
        !think_prefix(s),
{
    let (j, c) = tag_head(s).unwrap();
    if s[j as int] == '>' {
        assert(s[j as int] == '>');
    } else {
        let rest = s.skip(j as int);
        lemma_find_char_props(rest, '>');
        assert(s[(j + find_char(rest, '>')) as int] == '>');
    }
}

/// Every proper prefix of a think tag could still grow into one, so a tag
/// split across streamed chunks is held back rather than shown.
pub proof fn lemma_tag_prefixes_held(s: Seq<char>, k: int)
    requires
        think_tag(s) matches Some((n, c)) && 1 <= k < n,
    ensures
        think_prefix(s.take(k)),
{
    let (j, c) = tag_head(s).unwrap();
    let n = tag_tail(s, j).unwrap();
    lemma_think_tag_len(s);
    let p = s.take(k);
    let i: int = if c { 2 } else { 1 };
    // `>` only ends the tag.
    assert(!has_char(p, '>')) by {
        if s[j as int] == '>' {
            assert(n == j + 1);
            assert forall|t: int| 0 <= t < k implies p[t] != '>' by {
                if t >= i && t < j {
                    assert(p[t] == s[t]);
                    if ci_at(s, i, thinking()) {
                        assert(ascii_lower(s.subrange(i, i + 8)[t - i]) == thinking()[t - i]);
                    } else {
                        assert(ascii_lower(s.subrange(i, i + 5)[t - i]) == think()[t - i]);
                    }
                }
            }
        } else {
            let rest = s.skip(j as int);
            lemma_find_char_props(rest, '>');
            assert forall|t: int| 0 <= t < k implies p[t] != '>' by {
                if t >= j {
                    assert(rest[t - j] == s[t]);
                } else if t >= i {
                    if ci_at(s, i, thinking()) {
                        assert(ascii_lower(s.subrange(i, i + 8)[t - i]) == thinking()[t - i]);
                    } else {
                        assert(ascii_lower(s.subrange(i, i + 5)[t - i]) == think()[t - i]);
                    }
                }
            }
        }
    }
    let rest = if p.len() > 1 && p[1] == '/' { p.skip(2) } else { p.skip(1) };
    assert(p.len() > 1 && p[1] == '/' ==> c);
    let long = ci_at(s, i, thinking());
    let word = if long { thinking() } else { think() };
    assert(ci_at(s, i, word));
    // The characters after `<` or `</` follow the tag name for as long as it lasts.
    assert forall|t: int| 0 <= t < rest.len() && t < word.len() implies ascii_lower(#[trigger] rest[t]) == word[t] by {
        if p.len() > 1 && p[1] == '/' {
            assert(rest[t] == s[2 + t]);
        } else {
            if c {
                assert(k <= 1 || p[1] == '/');
            }
            assert(rest[t] == s[1 + t]);
        }
        assert(s.subrange(i, i + word.len())[t] == s[i + t]);
    }
    if c && k == 1 {
        assert(rest.len() == 0);
    }
    let head = min_len(rest.len(), 5);
    assert(ci_eq(rest.take(head as int), think().take(head as int))) by {
        assert forall|t: int| 0 <= t < head implies ascii_lower(#[trigger] rest.take(head as int)[t]) == think().take(head as int)[t] by {
            assert(rest.take(head as int)[t] == rest[t]);
            assert(word[t] == think()[t]);
        }
    }
    if rest.len() > 5 {
        let tail = rest.skip(5);
        if !is_ascii_ws(tail[0]) {
            let il = min_len(tail.len(), 3);
            assert(long) by {
                if !long {
                    assert(rest[5] == s[i + 5]);
                    assert(j == i + 5);
                    assert(s[j as int] != '>');
                }
            }
            assert(ci_eq(tail.take(il as int), ing().take(il as int))) by {
                assert forall|t: int| 0 <= t < il implies ascii_lower(#[trigger] tail.take(il as int)[t]) == ing().take(il as int)[t] by {
                    assert(tail.take(il as int)[t] == rest[5 + t]);
                    assert(thinking()[5 + t] == ing()[t]);
                }
            }
            if tail.len() > 3 {
                assert(tail[3] == s[j as int]);
                assert(s[j as int] != '>');
            }
        }
    }
}

// ---------------------------------------------------------------------------
// Reasoning spans
// ---------------------------------------------------------------------------

/// State of the reasoning-span scan: the text kept so far, where the text
/// after the last closed span starts, and how deeply spans are nested.
pub struct StripState {
    pub result: Seq<char>,
    pub cursor: nat,
    pub depth: nat,
}

/// One tag `s[start..end]` applied to the scan state.
pub open spec fn strip_step(s: Seq<char>, st: StripState, start: nat, end: nat, closing: bool) -> StripState {
    if closing {
        if st.depth > 0 {
            if st.depth == 1 {
                StripState { depth: 0, cursor: end, ..st }
            } else {
                StripState { depth: (st.depth - 1) as nat, ..st }
            }
        } else {
            StripState { result: seq![], cursor: end, depth: 0 }
        }
    } else {
        StripState {
            result: if st.depth == 0 { st.result + s.subrange(st.cursor as int, start as int) } else { st.result },
            depth: st.depth + 1,
            cursor: st.cursor,
        }
    }
}

/// The scan over the tags of `s` from position `i`.
pub open spec fn strip_scan(s: Seq<char>, i: nat, st: StripState) -> StripState
    decreases s.len() - i,
{
    if i >= s.len() {
        st
    } else {
        let pos = i + find_char(s.skip(i as int), '<');
        if pos >= s.len() {
            st
        } else {
            match think_tag(s.skip(pos as int)) {
                Some((len, c)) => if len > 0 {
                    strip_scan(s, (pos + len) as nat, strip_step(s, st, pos as nat, (pos + len) as nat, c))
                } else {
                    st
                },
                None => strip_scan(s, (pos + 1) as nat, st),
            }
        }
    }
}

/// `s` without its reasoning spans: closed spans are removed wherever they
/// appear; a stray closing tag keeps only the text after the last one; an
/// unclosed opening tag drops everything from it on, and leaves nothing when
/// only whitespace came before it.
pub open spec fn strip_think(s: Seq<char>) -> Seq<char> {
    let st = strip_scan(s, 0, StripState { result: seq![], cursor: 0, depth: 0 });
    if st.depth > 0 {
        if trim(st.result).len() == 0 { seq![] } else { st.result }
    } else {
        st.result + s.subrange(st.cursor as int, s.len() as int)
    }
}

/// Text without a `<` has no reasoning span and is kept as it is.
pub proof fn lemma_strip_think_plain(s: Seq<char>)
    requires
        !has_char(s, '<'),
    ensures
        strip_think(s) == s,
{
    let st0 = StripState { result: seq![], cursor: 0, depth: 0 };
    if s.len() > 0 {
        lemma_find_char_props(s.skip(0), '<');
        assert(s.skip(0) =~= s);
        if find_char(s, '<') < s.len() {
            assert(s[find_char(s, '<') as int] == '<');
        }
    }
    assert(strip_scan(s, 0, st0) == st0);
    assert(Seq::<char>::empty() + s.subrange(0, s.len() as int) =~= s);
}

/// `strip_think` of a character vector.
pub fn strip_think_blocks(text: &Vec<char>) -> (r: Vec<char>)
    ensures
        r@ == strip_think(text@),
{
    let ghost s = text@;
    let n = text.len();
    let mut result: Vec<char> = Vec::new();
    let mut cursor: usize = 0;
    let mut depth: usize = 0;
    let mut i: usize = 0;
    let ghost st0 = StripState { result: seq![], cursor: 0, depth: 0 };
    while i < n
        invariant
            s == text@,
            n == s.len(),
            i <= n,
            cursor <= i,
            depth <= i,
            strip_scan(s, 0, st0) == strip_scan(s, i as nat,
                StripState { result: result@, cursor: cursor as nat, depth: depth as nat }),
        decreases n - i,
    {
        let pos = find_in_range(text, i, n, '<');
        proof {
            assert(s.skip(i as int) =~= s.subrange(i as int, n as int));
        }
        if pos >= n {
            proof {
                let cur = StripState { result: result@, cursor: cursor as nat, depth: depth as nat };
                assert(strip_scan(s, i as nat, cur) == cur);
                assert(strip_scan(s, n as nat, cur) == cur);
            }
            i = n;
            continue;
        }
        match tag_at(text, pos) {
            Some((len, closing)) => {
                proof {
                    lemma_think_tag_len(s.skip(pos as int));
                }
                let end = pos + len;
                if closing {
                    if depth > 0 {
                        depth = depth - 1;
                        if depth == 0 {
                            cursor = end;
                        }
                    } else {
                        result = Vec::new();
                        cursor = end;
                    }
                } else {
                    if depth == 0 {
                        let ghost before = result@;
                        push_range(&mut result, text, cursor, pos);
                    }
                    depth = depth + 1;
                }
                i = end;
            },
            None => {
                i = pos + 1;
            },
        }
    }
    let ghost fin = StripState { result: result@, cursor: cursor as nat, depth: depth as nat };
    assert(strip_scan(s, 0, st0) == fin);
    if depth > 0 {
        let (a, b) = trim_range(&result, 0, result.len());
        assert(result@.subrange(0, result@.len() as int) =~= result@);
        if a == b {
            return Vec::new();
        }
        return result;
    }
    push_range(&mut result, text, cursor, n);
    result
}


// ---------------------------------------------------------------------------
// Commit lines and commentary
// ---------------------------------------------------------------------------

/// Starts with a conventional commit type followed by `:` or `(`.
pub open spec fn has_type_prefix(lower: Seq<char>) -> bool {
    ||| starts_with(lower, "fix:"@) || starts_with(lower, "fix("@)
    ||| starts_with(lower, "feat:"@) || starts_with(lower, "feat("@)
    ||| starts_with(lower, "refactor:"@) || starts_with(lower, "refactor("@)
    ||| starts_with(lower, "docs:"@) || starts_with(lower, "docs("@)
    ||| starts_with(lower, "test:"@) || starts_with(lower, "test("@)
    ||| starts_with(lower, "chore:"@) || starts_with(lower, "chore("@)
    ||| starts_with(lower, "style:"@) || starts_with(lower, "style("@)
    ||| starts_with(lower, "perf:"@) || starts_with(lower, "perf("@)
    ||| starts_with(lower, "build:"@) || starts_with(lower, "build("@)
    ||| starts_with(lower, "ci:"@) || starts_with(lower, "ci("@)
}

/// A line that starts (once trimmed and lower-cased) with a conventional
/// commit type: `fix`, `feat`, `refactor`, `docs`, `test`, `chore`, `style`,
/// `perf`, `build` or `ci`, then `:` or `(`.
pub open spec fn commit_line(line: Seq<char>) -> bool {
    has_type_prefix(lowercase(trim(line)))
}

/// A literal followed by anything starts with that literal.
proof fn lemma_starts_with_concat(p: Seq<char>, rest: Seq<char>)
    ensures
        starts_with(p + rest, p),
{
    assert((p + rest).subrange(0, p.len() as int) =~= p);
}

/// Every type the prompt lists (`fix`, `feat`, `refactor`, `docs`, `test`,
/// `chore`, `style`, `perf`, `build`, `ci`), followed by `:` or `(`, makes
/// a commit line: whatever follows, a line whose trimmed, lower-cased text
/// starts that way is one.
pub proof fn lemma_every_type_makes_a_commit_line(line: Seq<char>, rest: Seq<char>)
    ensures
        lowercase(trim(line)) == "fix:"@ + rest ==> commit_line(line),
        lowercase(trim(line)) == "fix("@ + rest ==> commit_line(line),
        lowercase(trim(line)) == "feat:"@ + rest ==> commit_line(line),
        lowercase(trim(line)) == "feat("@ + rest ==> commit_line(line),
        lowercase(trim(line)) == "refactor:"@ + rest ==> commit_line(line),
        lowercase(trim(line)) == "refactor("@ + rest ==> commit_line(line),
        lowercase(trim(line)) == "docs:"@ + rest ==> commit_line(line),
        lowercase(trim(line)) == "docs("@ + rest ==> commit_line(line),
        lowercase(trim(line)) == "test:"@ + rest ==> commit_line(line),
        lowercase(trim(line)) == "test("@ + rest ==> commit_line(line),
        lowercase(trim(line)) == "chore:"@ + rest ==> commit_line(line),
        lowercase(trim(line)) == "chore("@ + rest ==> commit_line(line),
        lowercase(trim(line)) == "style:"@ + rest ==> commit_line(line),
        lowercase(trim(line)) == "style("@ + rest ==> commit_line(line),
        lowercase(trim(line)) == "perf:"@ + rest ==> commit_line(line),
        lowercase(trim(line)) == "perf("@ + rest ==> commit_line(line),
        lowercase(trim(line)) == "build:"@ + rest ==> commit_line(line),
        lowercase(trim(line)) == "build("@ + rest ==> commit_line(line),
        lowercase(trim(line)) == "ci:"@ + rest ==> commit_line(line),
        lowercase(trim(line)) == "ci("@ + rest ==> commit_line(line),
{
    lemma_starts_with_concat("fix:"@, rest);
    lemma_starts_with_concat("fix("@, rest);
    lemma_starts_with_concat("feat:"@, rest);
    lemma_starts_with_concat("feat("@, rest);
    lemma_starts_with_concat("refactor:"@, rest);
    lemma_starts_with_concat("refactor("@, rest);
    lemma_starts_with_concat("docs:"@, rest);
    lemma_starts_with_concat("docs("@, rest);
    lemma_starts_with_concat("test:"@, rest);
    lemma_starts_with_concat("test("@, rest);
    lemma_starts_with_concat("chore:"@, rest);
    lemma_starts_with_concat("chore("@, rest);
    lemma_starts_with_concat("style:"@, rest);
    lemma_starts_with_concat("style("@, rest);
    lemma_starts_with_concat("perf:"@, rest);
    lemma_starts_with_concat("perf("@, rest);
    lemma_starts_with_concat("build:"@, rest);
    lemma_starts_with_concat("build("@, rest);
    lemma_starts_with_concat("ci:"@, rest);
    lemma_starts_with_concat("ci("@, rest);
}

/// A line of commentary about the message rather than part of it.
pub open spec fn commentary(line: Seq<char>) -> bool {
    let t = trim(line);
    let lower = lowercase(t);
    ||| starts_with(t, "("@)
    ||| starts_with(lower, "note:"@)
    ||| starts_with(lower, "i used "@)
    ||| starts_with(lower, "i chose "@)
    ||| starts_with(lower, "here is"@)
    ||| starts_with(lower, "here's"@)
    ||| starts_with(lower, "above is"@)
    ||| starts_with(lower, "let me"@)
    ||| starts_with(lower, "please "@)
    ||| starts_with(lower, "this commit message"@)
    ||| starts_with(lower, "this message"@)
    ||| t == "---"@
}

/// Does `v` start with the literal `lit`?
fn starts_lit(v: &Vec<char>, lit: &str) -> (b: bool)
    ensures
        b == starts_with(v@, lit@),
{
    assert(v@.subrange(0, v@.len() as int) =~= v@);
    range_starts_with(v, 0, v.len(), &chars_of(lit))
}

fn type_prefix(lower: &Vec<char>) -> (b: bool)
    ensures
        b == has_type_prefix(lower@),
{
    starts_lit(lower, "fix:") || starts_lit(lower, "fix(")
        || starts_lit(lower, "feat:") || starts_lit(lower, "feat(")
        || starts_lit(lower, "refactor:") || starts_lit(lower, "refactor(")
        || starts_lit(lower, "docs:") || starts_lit(lower, "docs(")
        || starts_lit(lower, "test:") || starts_lit(lower, "test(")
        || starts_lit(lower, "chore:") || starts_lit(lower, "chore(")
        || starts_lit(lower, "style:") || starts_lit(lower, "style(")
        || starts_lit(lower, "perf:") || starts_lit(lower, "perf(")
        || starts_lit(lower, "build:") || starts_lit(lower, "build(")
        || starts_lit(lower, "ci:") || starts_lit(lower, "ci(")
}

/// `commit_line` of `v[lo..hi]`.
fn commit_line_range(v: &Vec<char>, lo: usize, hi: usize) -> (b: bool)
    requires
        lo <= hi <= v@.len(),
    ensures
        b == commit_line(v@.subrange(lo as int, hi as int)),
{
    let (a, e) = trim_range(v, lo, hi);
    let lower = lower_range(v, a, e);
    type_prefix(&lower)
}

/// `commentary` of `v[lo..hi]`.
fn commentary_range(v: &Vec<char>, lo: usize, hi: usize) -> (b: bool)
    requires
        lo <= hi <= v@.len(),
    ensures
        b == commentary(v@.subrange(lo as int, hi as int)),
{
    let (a, e) = trim_range(v, lo, hi);
    let mut t: Vec<char> = Vec::new();
    push_range(&mut t, v, a, e);
    assert(t@ =~= v@.subrange(a as int, e as int));
    let lower = lower_range(v, a, e);
    let dashes = chars_of("---");
    let n = t.len();
    assert(t@.subrange(0, n as int) =~= t@);
    starts_lit(&t, "(")
        || starts_lit(&lower, "note:")
        || starts_lit(&lower, "i used ")
        || starts_lit(&lower, "i chose ")
        || starts_lit(&lower, "here is")
        || starts_lit(&lower, "here's")
        || starts_lit(&lower, "above is")
        || starts_lit(&lower, "let me")
        || starts_lit(&lower, "please ")
        || starts_lit(&lower, "this commit message")
        || starts_lit(&lower, "this message")
        || range_eq(&t, 0, n, &dashes)
}

/// Does the line start with a conventional commit type (`fix:`, `feat(`...,
/// case ignored, leading whitespace ignored)?
pub fn is_commit_line(line: &str) -> (b: bool)
    ensures
        b == commit_line(line@),
{
    let v = chars_of(line);
    assert(v@.subrange(0, v@.len() as int) =~= v@);
    commit_line_range(&v, 0, v.len())
}

/// Is the line commentary about the message (a parenthetical, `Note:`,
/// `Here is`..., `---`) rather than part of it?
pub fn is_commentary(line: &str) -> (b: bool)
    ensures
        b == commentary(line@),
{
    let v = chars_of(line);
    assert(v@.subrange(0, v@.len() as int) =~= v@);
    commentary_range(&v, 0, v.len())
}

/// Is the first line of `message` a conventional commit line?
pub fn is_conventional_commit_message(message: &str) -> (b: bool)
    ensures
        b == (lines(message@).len() > 0 && commit_line(lines(message@)[0])),
{
    let v = chars_of(message);
    let rs = line_ranges(&v);
    if rs.len() == 0 {
        return false;
    }
    let (lo, hi) = rs[0];
    commit_line_range(&v, lo, hi)
}

// ---------------------------------------------------------------------------
// Cleaning the model's output
// ---------------------------------------------------------------------------

/// `s` without one pair of matching double or single quotes wrapping it,
/// trimmed again when a pair was removed.
pub open spec fn unquote(s: Seq<char>) -> Seq<char> {
    if s.len() >= 2 && s[0] == '"' && s.last() == '"' {
        trim(s.subrange(1, s.len() - 1))
    } else if s.len() >= 2 && s[0] == '\'' && s.last() == '\'' {
        trim(s.subrange(1, s.len() - 1))
    } else {
        s
    }
}

/// A markdown code fence.
pub open spec fn fence() -> Seq<char> {
    seq!['`', '`', '`']
}

/// `s` without its leading newlines.
pub open spec fn skip_newlines(s: Seq<char>) -> Seq<char>
    decreases s.len(),
{
    if s.len() > 0 && s[0] == '\n' {
        skip_newlines(s.drop_first())
    } else {
        s
    }
}

/// When `r` opens with a code fence: what follows the fence's first line
/// break, leading newlines and a closing fence dropped, trimmed. Otherwise
/// `r` itself.
pub open spec fn unfence(r: Seq<char>) -> Seq<char> {
    if starts_with(r, fence()) {
        let a = r.skip(3);
        let inner = skip_newlines(a.skip(find_char(a, '\n') as int));
        let body = if ends_with(inner, fence()) { inner.take(inner.len() - 3) } else { inner };
        trim(body)
    } else {
        r
    }
}

/// Index of the first non-empty line, or the count when there is none.
pub open spec fn first_nonempty(ls: Seq<Seq<char>>) -> nat
    decreases ls.len(),
{
    if ls.len() == 0 {
        0
    } else if ls[0].len() > 0 {
        0
    } else {
        1 + first_nonempty(ls.drop_first())
    }
}

/// The next non-empty line of `rest` is commentary.
pub open spec fn commentary_follows(rest: Seq<Seq<char>>) -> bool {
    let i = first_nonempty(rest);
    i < rest.len() && commentary(rest[i as int])
}

/// Index of the first commit line, or the count when there is none.
pub open spec fn first_commit(ls: Seq<Seq<char>>) -> nat
    decreases ls.len(),
{
    if ls.len() == 0 {
        0
    } else if commit_line(ls[0]) {
        0
    } else {
        1 + first_commit(ls.drop_first())
    }
}

/// The message lines kept from line `k` on, the commit line being at
/// `start`: stray fence lines are dropped, and an empty line after which the
/// next non-empty line (counted from `start` plus the lines kept so far) is
/// commentary ends the message.
pub open spec fn gather(ls: Seq<Seq<char>>, start: nat, k: nat, kept: Seq<Seq<char>>) -> Seq<Seq<char>>
    decreases ls.len() - k,
{
    if k >= ls.len() {
        kept
    } else if starts_with(trim(ls[k as int]), fence()) {
        gather(ls, start, k + 1, kept)
    } else if kept.len() > 0 && ls[k as int].len() == 0 && commentary_follows(ls.skip((start + kept.len()) as int)) {
        kept
    } else {
        gather(ls, start, k + 1, kept.push(ls[k as int]))
    }
}

/// The output of the model, cleaned: reasoning spans, wrapping quotes and
/// a wrapping code fence removed; then, from the first conventional commit
/// line on, without stray fences and trailing commentary. Without a commit
/// line, the unwrapped text as it is.
pub open spec fn cleaned(raw: Seq<char>) -> Seq<char> {
    let u = unfence(unquote(trim(strip_think(trim(raw)))));
    let ls = lines(u);
    let st = first_commit(ls);
    if st < ls.len() {
        trim(join(gather(ls, st, st, seq![]), "\n"@))
    } else {
        u
    }
}

/// A copy of `v[lo..hi]`.
fn slice_of(v: &Vec<char>, lo: usize, hi: usize) -> (r: Vec<char>)
    requires
        lo <= hi <= v@.len(),
    ensures
        r@ == v@.subrange(lo as int, hi as int),
{
    let mut r: Vec<char> = Vec::new();
    push_range(&mut r, v, lo, hi);
    assert(r@ =~= v@.subrange(lo as int, hi as int));
    r
}

/// `v` trimmed.
fn trimmed(v: &Vec<char>) -> (r: Vec<char>)
    ensures
        r@ == trim(v@),
{
    let (a, b) = trim_range(v, 0, v.len());
    assert(v@.subrange(0, v@.len() as int) =~= v@);
    slice_of(v, a, b)
}

/// Strip one pair of matching quotes wrapping the whole message.
fn strip_wrapping_quotes(v: &Vec<char>) -> (r: Vec<char>)
    ensures
        r@ == unquote(v@),
{
    let n = v.len();
    if n >= 2 && v[0] == '"' && v[n - 1] == '"' {
        let inner = slice_of(v, 1, n - 1);
        return trimmed(&inner);
    }
    if n >= 2 && v[0] == '\'' && v[n - 1] == '\'' {
        let inner = slice_of(v, 1, n - 1);
        return trimmed(&inner);
    }
    slice_of(v, 0, n)
}

/// Index of the first non-newline at or after `lo`.
fn skip_newlines_from(v: &Vec<char>, lo: usize) -> (r: usize)
    requires
        lo <= v@.len(),
    ensures
        lo <= r <= v@.len(),
        skip_newlines(v@.skip(lo as int)) == v@.skip(r as int),
{
    let mut i = lo;
    while i < v.len() && v[i] == '\n'
        invariant
            lo <= i <= v@.len(),
            skip_newlines(v@.skip(lo as int)) == skip_newlines(v@.skip(i as int)),
        decreases v@.len() - i,
    {
        assert(v@.skip(i as int).drop_first() =~= v@.skip(i + 1));
        i = i + 1;
    }
    i
}

/// Remove a code fence wrapping the whole message (see `unfence`).
fn unfence_exec(v: &Vec<char>) -> (r: Vec<char>)
    ensures
        r@ == unfence(v@),
{
    let n = v.len();
    let tick = vec!['`', '`', '`'];
    assert(tick@ =~= fence());
    assert(v@.subrange(0, n as int) =~= v@);
    if !range_starts_with(v, 0, n, &tick) {
        return slice_of(v, 0, n);
    }
    let nl = find_in_range(v, 3, n, '\n');
    let ghost a = v@.skip(3);
    proof {
        assert(a =~= v@.subrange(3, n as int));
        assert(a.skip(find_char(a, '\n') as int) =~= v@.skip(nl as int));
    }
    let start = skip_newlines_from(v, nl);
    let ghost inner = v@.skip(start as int);
    assert(inner =~= v@.subrange(start as int, n as int));
    let end = if range_ends_with(v, start, n, &tick) { n - 3 } else { n };
    proof {
        if end == n - 3 {
            assert(inner.take(inner.len() - 3) =~= v@.subrange(start as int, end as int));
        }
    }
    let (a2, b2) = trim_range(v, start, end);
    slice_of(v, a2, b2)
}

/// Index of the first non-empty line in `ls[from..]`, or the count.
fn first_nonempty_from(v: &Vec<char>, rs: &Vec<(usize, usize)>, Ghost(ls): Ghost<Seq<Seq<char>>>, from: usize) -> (r: usize)
    requires
        ranges_match(v@, rs@, ls),
        from <= ls.len(),
    ensures
        from <= r <= ls.len(),
        r - from == first_nonempty(ls.skip(from as int)),
{
    let mut i = from;
    while i < rs.len() && rs[i].0 == rs[i].1
        invariant
            ranges_match(v@, rs@, ls),
            from <= i <= ls.len(),
            first_nonempty(ls.skip(from as int)) == (i - from) + first_nonempty(ls.skip(i as int)),
        decreases ls.len() - i,
    {
        assert(ls[i as int] == v@.subrange(rs@[i as int].0 as int, rs@[i as int].1 as int));
        assert(ls.skip(i as int).drop_first() =~= ls.skip(i + 1));
        i = i + 1;
    }
    proof {
        if i < ls.len() {
            assert(ls[i as int] == v@.subrange(rs@[i as int].0 as int, rs@[i as int].1 as int));
            assert(ls.skip(i as int)[0] == ls[i as int]);
        }
    }
    i
}

/// The lines kept from the commit line at `start` on (see `gather`).
fn gather_exec(v: &Vec<char>, rs: &Vec<(usize, usize)>, Ghost(ls): Ghost<Seq<Seq<char>>>, start: usize) -> (r: Vec<Vec<char>>)
    requires
        ranges_match(v@, rs@, ls),
        start < ls.len(),
    ensures
        vtexts(r@) == gather(ls, start as nat, start as nat, seq![]),
{
    let mut kept: Vec<Vec<char>> = Vec::new();
    let mut k = start;
    let tick = vec!['`', '`', '`'];
    assert(tick@ =~= fence());
    assert(vtexts(kept@) =~= Seq::<Seq<char>>::empty());
    while k < rs.len()
        invariant
            ranges_match(v@, rs@, ls),
            tick@ == fence(),
            start <= k <= ls.len(),
            kept@.len() <= k - start,
            gather(ls, start as nat, start as nat, seq![]) == gather(ls, start as nat, k as nat, vtexts(kept@)),
        decreases ls.len() - k,
    {
        let (lo, hi) = rs[k];
        assert(ls[k as int] == v@.subrange(lo as int, hi as int));
        let (a, b) = trim_range(v, lo, hi);
        if range_starts_with(v, a, b, &tick) {
            k = k + 1;
        } else {
            if kept.len() > 0 && lo == hi {
                let from = start + kept.len();
                let i = first_nonempty_from(v, rs, Ghost(ls), from);
                if i < rs.len() {
                    let (l2, h2) = rs[i];
                    assert(ls[i as int] == v@.subrange(l2 as int, h2 as int));
                    assert(ls.skip(from as int)[(i - from) as int] == ls[i as int]);
                    if commentary_range(v, l2, h2) {
                        return kept;
                    }
                }
            }
            let ghost before = vtexts(kept@);
            kept.push(slice_of(v, lo, hi));
            assert(vtexts(kept@) =~= before.push(ls[k as int]));
            k = k + 1;
        }
    }
    kept
}

/// Clean the model's output: strip reasoning blocks, wrapping quotes, code
/// fences, preamble and trailing commentary. From the first line that looks
/// like a conventional commit on; without one, the unwrapped text.
pub fn clean_message(raw: &str) -> (r: String)
    ensures
        r@ == cleaned(raw@),
{
    let v = chars_of(raw);
    let t = trimmed(&v);
    let s1 = strip_think_blocks(&t);
    let s2 = trimmed(&s1);
    let s3 = strip_wrapping_quotes(&s2);
    let u = unfence_exec(&s3);
    let rs = line_ranges(&u);
    let ghost ls = lines(u@);
    let mut st: usize = 0;
    assert(ls.skip(0) =~= ls);
    while st < rs.len() && !commit_line_range(&u, rs[st].0, rs[st].1)
        invariant
            ranges_match(u@, rs@, ls),
            st <= ls.len(),
            first_commit(ls) == st + first_commit(ls.skip(st as int)),
        decreases ls.len() - st,
    {
        assert(ls[st as int] == u@.subrange(rs@[st as int].0 as int, rs@[st as int].1 as int));
        assert(ls.skip(st as int).drop_first() =~= ls.skip(st + 1));
        st = st + 1;
    }
    proof {
        if st < ls.len() {
            assert(ls[st as int] == u@.subrange(rs@[st as int].0 as int, rs@[st as int].1 as int));
            assert(ls.skip(st as int)[0] == ls[st as int]);
        } else {
            assert(ls.skip(st as int).len() == 0);
        }
    }
    if st >= rs.len() {
        return string_of(&u);
    }
    let kept = gather_exec(&u, &rs, Ghost(ls), st);
    let mut joined: Vec<char> = Vec::new();
    push_joined(&mut joined, &kept, "\n");
    assert(joined@ =~= join(vtexts(kept@), "\n"@));
    let out = trimmed(&joined);
    string_of(&out)
}


/// A trimmed one-line conventional commit message, without `<`, wrapping
/// quotes or a leading fence, passes through cleanup unchanged.
pub proof fn lemma_clean_message_keeps_plain_commit_line(m: Seq<char>)
    requires
        trim(m) == m,
        !has_char(m, '<'),
        !has_char(m, '\n'),
        commit_line(m),
        unquote(m) == m,
        !starts_with(m, fence()),
    ensures
        cleaned(m) == m,
{
    lemma_strip_think_plain(m);
    assert(strip_think(trim(m)) == m);
    assert(unfence(unquote(trim(strip_think(trim(m))))) == m);
    if m.len() > 0 {
        lemma_find_char_props(m, '\n');
        if find_char(m, '\n') < m.len() {
            assert(m[find_char(m, '\n') as int] == '\n');
        }
        assert(lines(m) == seq![m]);
        let ls = lines(m);
        assert(first_commit(ls) == 0);
        assert(ls[0] == m);
        assert(gather(ls, 0, 1, seq![m]) == seq![m]);
        assert(gather(ls, 0, 0, seq![]) == gather(ls, 0, 1, Seq::<Seq<char>>::empty().push(m)));
        assert(Seq::<Seq<char>>::empty().push(m) =~= seq![m]);
        assert(join(seq![m], "\n"@) == m);
    } else {
        assert(lines(m).len() == 0);
    }
}

/// The cleaned message never has whitespace around it.
pub proof fn lemma_cleaned_is_trimmed(raw: Seq<char>)
    ensures
        trim(cleaned(raw)) == cleaned(raw),
{
    let t = trim(strip_think(trim(raw)));
    crate::text::lemma_trim_idem(strip_think(trim(raw)));
    let q = unquote(t);
    if t.len() >= 2 && ((t[0] == '"' && t.last() == '"') || (t[0] == '\'' && t.last() == '\'')) {
        crate::text::lemma_trim_idem(t.subrange(1, t.len() - 1));
    }
    assert(trim(q) == q);
    let u = unfence(q);
    if starts_with(q, fence()) {
        let a = q.skip(3);
        let inner = skip_newlines(a.skip(find_char(a, '\n') as int));
        let body = if ends_with(inner, fence()) { inner.take(inner.len() - 3) } else { inner };
        crate::text::lemma_trim_idem(body);
    }
    assert(trim(u) == u);
    let ls = lines(u);
    let st = first_commit(ls);
    if st < ls.len() {
        crate::text::lemma_trim_idem(join(gather(ls, st, st, seq![]), "\n"@));
    }
}
} // verus!
