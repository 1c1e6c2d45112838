//! What the library computes from `git` output: staged file lists, numstat
//! records, relevance ranking, the ranked stat header and combined diffs.
//!
//! Running `git` is the caller's business: the library names each
//! invocation (its arguments) and judges how it ended; every other function
//! takes the text that `git` printed.
use vstd::prelude::*;
use crate::text::{
    chars_of, string_of, ends_with, lowercase, lower_range, range_ends_with, range_eq, find_char,
    dec, join, trim, trim_range, vtexts,
};
use crate::unixpath::{components, component_ranges, file_name};

verus! {

// ---------------------------------------------------------------------------
// Low-signal paths
// ---------------------------------------------------------------------------

/// Lockfile names that mark a path as low-signal.
pub open spec fn lockfile_names() -> Seq<Seq<char>> {
    seq![
        "Cargo.lock"@, "package-lock.json"@, "yarn.lock"@, "pnpm-lock.yaml"@, "bun.lockb"@,
        "go.sum"@, "composer.lock"@, "Gemfile.lock"@, "poetry.lock"@, "uv.lock"@,
    ]
}

/// A directory component that marks vendored dependencies.
pub open spec fn is_vendor_dir(c: Seq<char>) -> bool {
    c == "node_modules"@ || c == "vendor"@
}

/// Near-certain noise for a commit message: a lockfile by exact name, a
/// minified asset or source map by (lower-cased) extension, or anything
/// below a `node_modules` or `vendor` directory. A path without a file name
/// is never low-signal.
pub open spec fn low_signal(path: Seq<char>) -> bool {
    match file_name(path) {
        None => false,
        Some(base) => {
            ||| lockfile_names().contains(base)
            ||| ends_with(lowercase(base), ".min.js"@)
            ||| ends_with(lowercase(base), ".min.css"@)
            ||| ends_with(lowercase(base), ".map"@)
            ||| exists|i: int|
                0 <= i < components(path).len() - 1 && #[trigger] is_vendor_dir(components(path)[i])
        },
    }
}

/// A name (no `/`, not `.` or `..`) after a directory prefix (empty or
/// ending in `/`) is the last component of the path.
proof fn lemma_pieces_end_with_name(dir: Seq<char>, name: Seq<char>)
    requires
        dir.len() == 0 || dir.last() == '/',
        name.len() > 0,
        !crate::text::has_char(name, '/'),
        name != seq!['.'],
    ensures
        crate::unixpath::pieces(dir + name).len() > 0,
        crate::unixpath::pieces(dir + name).last() == name,
    decreases dir.len(),
{
    let s = dir + name;
    crate::text::lemma_find_char_props(s, '/');
    let i = crate::text::find_char(s, '/');
    if dir.len() == 0 {
        assert(s =~= name);
        assert forall|t: int| 0 <= t < name.len() implies name[t] != '/' by {
            if name[t] == '/' {
                assert(crate::text::has_char(name, '/'));
            }
        }
        crate::text::lemma_find_char(s, '/', name.len() as int);
        assert(s.take(i as int) =~= name);
    } else {
        assert(s[dir.len() - 1] == '/');
        assert(i < dir.len());
        let d2 = dir.skip((i + 1) as int);
        assert(s.skip((i + 1) as int) =~= d2 + name);
        if d2.len() > 0 {
            assert(d2.last() == dir.last());
        }
        lemma_pieces_end_with_name(d2, name);
    }
}

/// The lockfile name at index `k` of `lockfile_names`, wherever it
/// sits, is low-signal.
proof fn lemma_lockfile_in_dir(dir: Seq<char>, name: Seq<char>, k: int)
    requires
        dir.len() == 0 || dir.last() == '/',
        0 <= k < lockfile_names().len(),
        name == lockfile_names()[k],
        name.len() > 0,
        !crate::text::has_char(name, '/'),
        name != seq!['.'],
        name != seq!['.', '.'],
    ensures
        low_signal(dir + name),
{
    lemma_pieces_end_with_name(dir, name);
    let c = components(dir + name);
    assert(c.last() == crate::unixpath::pieces(dir + name).last());
    assert(name != seq!['/']) by {
        if name == seq!['/'] {
            assert(name[0] == '/');
        }
    }
    assert(file_name(dir + name) == Some(name));
    assert(lockfile_names().contains(name));
}

/// Every lockfile the tool knows (`Cargo.lock`, `package-lock.json`,
/// `yarn.lock`, `pnpm-lock.yaml`, `bun.lockb`, `go.sum`, `composer.lock`,
/// `Gemfile.lock`, `poetry.lock`, `uv.lock`) is low-signal wherever it
/// sits: at the top of the repository or below any directory.
pub proof fn lemma_lockfiles_low_signal(dir: Seq<char>)
    requires
        dir.len() == 0 || dir.last() == '/',
    ensures
        low_signal(dir + "Cargo.lock"@),
        low_signal(dir + "package-lock.json"@),
        low_signal(dir + "yarn.lock"@),
        low_signal(dir + "pnpm-lock.yaml"@),
        low_signal(dir + "bun.lockb"@),
        low_signal(dir + "go.sum"@),
        low_signal(dir + "composer.lock"@),
        low_signal(dir + "Gemfile.lock"@),
        low_signal(dir + "poetry.lock"@),
        low_signal(dir + "uv.lock"@),
{
    assert forall|k: int| 0 <= k < lockfile_names().len() implies {
        let n = #[trigger] lockfile_names()[k];
        &&& n.len() > 0
        &&& !crate::text::has_char(n, '/')
        &&& n != seq!['.']
        &&& n != seq!['.', '.']
    } by {
        reveal_strlit("Cargo.lock");
        reveal_strlit("package-lock.json");
        reveal_strlit("yarn.lock");
        reveal_strlit("pnpm-lock.yaml");
        reveal_strlit("bun.lockb");
        reveal_strlit("go.sum");
        reveal_strlit("composer.lock");
        reveal_strlit("Gemfile.lock");
        reveal_strlit("poetry.lock");
        reveal_strlit("uv.lock");
        let n = lockfile_names()[k];
        assert(n.len() > 2);
        if crate::text::has_char(n, '/') {
            let t = choose|t: int| 0 <= t < n.len() && n[t] == '/';
        }
    }
    lemma_lockfile_in_dir(dir, "Cargo.lock"@, 0);
    lemma_lockfile_in_dir(dir, "package-lock.json"@, 1);
    lemma_lockfile_in_dir(dir, "yarn.lock"@, 2);
    lemma_lockfile_in_dir(dir, "pnpm-lock.yaml"@, 3);
    lemma_lockfile_in_dir(dir, "bun.lockb"@, 4);
    lemma_lockfile_in_dir(dir, "go.sum"@, 5);
    lemma_lockfile_in_dir(dir, "composer.lock"@, 6);
    lemma_lockfile_in_dir(dir, "Gemfile.lock"@, 7);
    lemma_lockfile_in_dir(dir, "poetry.lock"@, 8);
    lemma_lockfile_in_dir(dir, "uv.lock"@, 9);
}

/// Is `path` low-signal (lockfile, minified asset, source map, vendored)?
pub fn is_low_signal_path(path: &str) -> (b: bool)
    ensures
        b == low_signal(path@),
{
    let v = chars_of(path);
    let rs = component_ranges(&v);
    let ghost comps = components(v@);
    let n = rs.len();
    if n == 0 {
        return false;
    }
    let (lo, hi) = rs[n - 1];
    let slash = vec!['/'];
    let dot = vec!['.'];
    let dotdot = vec!['.', '.'];
    proof {
        assert(slash@ =~= seq!['/']);
        assert(dot@ =~= seq!['.']);
        assert(dotdot@ =~= seq!['.', '.']);
        assert(comps.last() == v@.subrange(lo as int, hi as int));
    }
    if range_eq(&v, lo, hi, &slash) || range_eq(&v, lo, hi, &dot) || range_eq(&v, lo, hi, &dotdot) {
        return false;
    }
    let ghost base = v@.subrange(lo as int, hi as int);
    assert(file_name(path@) == Some(base));
    let names = [
        "Cargo.lock", "package-lock.json", "yarn.lock", "pnpm-lock.yaml", "bun.lockb",
        "go.sum", "composer.lock", "Gemfile.lock", "poetry.lock", "uv.lock",
    ];
    let mut k: usize = 0;
    while k < 10
        invariant
            k <= 10,
            names@.len() == 10,
            forall|t: int| 0 <= t < 10 ==> names@[t]@ == #[trigger] lockfile_names()[t],
            lo <= hi <= v@.len(),
            base == v@.subrange(lo as int, hi as int),
            file_name(path@) == Some(base),
            forall|t: int| 0 <= t < k ==> lockfile_names()[t] != base,
        decreases 10 - k,
    {
        let lit = chars_of(names[k]);
        if range_eq(&v, lo, hi, &lit) {
            assert(lockfile_names()[k as int] == base);
            assert(lockfile_names().contains(base));
            return true;
        }
        k = k + 1;
    }
    assert(!lockfile_names().contains(base)) by {
        if lockfile_names().contains(base) {
            let t = choose|t: int| 0 <= t < lockfile_names().len() && lockfile_names()[t] == base;
            assert(lockfile_names().len() == 10);
        }
    }
    let lower = lower_range(&v, lo, hi);
    let ln = lower.len();
    let min_js = chars_of(".min.js");
    let min_css = chars_of(".min.css");
    let map = chars_of(".map");
    proof {
        assert(lower@.subrange(0, ln as int) =~= lower@);
    }
    if range_ends_with(&lower, 0, ln, &min_js) || range_ends_with(&lower, 0, ln, &min_css)
        || range_ends_with(&lower, 0, ln, &map) {
        return true;
    }
    let node_modules = chars_of("node_modules");
    let vendor = chars_of("vendor");
    let mut i: usize = 0;
    while i + 1 < n
        invariant
            n == rs@.len(),
            n == comps.len(),
            n >= 1,
            i < n,
            forall|t: int| 0 <= t < n ==> {
                &&& (#[trigger] rs@[t]).0 <= rs@[t].1 <= v@.len()
                &&& v@.subrange(rs@[t].0 as int, rs@[t].1 as int) == comps[t]
            },
            node_modules@ == "node_modules"@,
            file_name(path@) == Some(base),
            comps == components(path@),
            vendor@ == "vendor"@,
            forall|t: int| 0 <= t < i ==> !is_vendor_dir(#[trigger] comps[t]),
        decreases n - i,
    {
        let (a, b) = rs[i];
        if range_eq(&v, a, b, &node_modules) || range_eq(&v, a, b, &vendor) {
            assert(is_vendor_dir(comps[i as int]));
            return true;
        }
        i = i + 1;
    }
    false
}

} // verus!

verus! {

// ---------------------------------------------------------------------------
// Relevance ranking
// ---------------------------------------------------------------------------

/// A numstat record: lines added, lines removed, path.
pub type NumstatEntry = (usize, usize, String);

/// A numstat record by its values.
pub type NumstatView = (nat, nat, Seq<char>);

pub open spec fn entry_view(e: NumstatEntry) -> NumstatView {
    (e.0 as nat, e.1 as nat, e.2@)
}

/// The values of a sequence of records.
pub open spec fn views(s: Seq<NumstatEntry>) -> Seq<NumstatView> {
    s.map_values(|e: NumstatEntry| entry_view(e))
}

/// Lines changed in a record.
pub open spec fn total(e: NumstatView) -> nat {
    e.0 + e.1
}

/// Lexicographic order on characters (the order of `String::cmp`, since
/// UTF-8 preserves code point order).
pub open spec fn lex_le(a: Seq<char>, b: Seq<char>) -> bool
    decreases a.len(),
{
    if a.len() == 0 {
        true
    } else if b.len() == 0 {
        false
    } else if a[0] < b[0] {
        true
    } else if a[0] > b[0] {
        false
    } else {
        lex_le(a.drop_first(), b.drop_first())
    }
}

/// May `x` come before `y` in the ranking? High-signal files first, then
/// more lines changed first, then alphabetical.
pub open spec fn ranks_before(x: NumstatView, y: NumstatView) -> bool {
    let lx = low_signal(x.2);
    let ly = low_signal(y.2);
    if lx != ly {
        !lx
    } else if total(x) != total(y) {
        total(x) > total(y)
    } else {
        lex_le(x.2, y.2)
    }
}

/// Stable insertion of `e` into a ranked sequence: after every element that
/// may come before it.
pub open spec fn insert_ranked(s: Seq<NumstatView>, e: NumstatView) -> Seq<NumstatView>
    decreases s.len(),
{
    if s.len() == 0 {
        seq![e]
    } else if ranks_before(s.last(), e) {
        s.push(e)
    } else {
        insert_ranked(s.drop_last(), e).push(s.last())
    }
}

/// The stable sort of `s` by relevance (`sort_by` with the ranking order).
pub open spec fn ranked(s: Seq<NumstatView>) -> Seq<NumstatView>
    decreases s.len(),
{
    if s.len() == 0 {
        seq![]
    } else {
        insert_ranked(ranked(s.drop_last()), s.last())
    }
}

/// Every record's line total fits a `usize` (the stat header adds them).
pub open spec fn totals_fit(s: Seq<NumstatView>) -> bool {
    forall|i: int| 0 <= i < s.len() ==> #[trigger] total(s[i]) <= usize::MAX
}

/// `lex_le` on two character vectors.
pub fn lex_le_exec(a: &Vec<char>, b: &Vec<char>) -> (r: bool)
    ensures
        r == lex_le(a@, b@),
{
    let mut i: usize = 0;
    assert(a@.skip(0) =~= a@ && b@.skip(0) =~= b@);
    while i < a.len() && i < b.len() && a[i] == b[i]
        invariant
            i <= a@.len(),
            i <= b@.len(),
            lex_le(a@, b@) == lex_le(a@.skip(i as int), b@.skip(i as int)),
        decreases a.len() - i,
    {
        assert(a@.skip(i as int).drop_first() =~= a@.skip(i + 1));
        assert(b@.skip(i as int).drop_first() =~= b@.skip(i + 1));
        i = i + 1;
    }
    if i == a.len() {
        assert(a@.skip(i as int).len() == 0);
        true
    } else if i == b.len() {
        assert(b@.skip(i as int).len() == 0 && a@.skip(i as int).len() > 0);
        false
    } else {
        assert(a@.skip(i as int)[0] == a@[i as int] && b@.skip(i as int)[0] == b@[i as int]);
        a[i] < b[i]
    }
}

fn copy_entry(e: &NumstatEntry) -> (r: NumstatEntry)
    ensures
        r == *e,
{
    (e.0, e.1, e.2.clone())
}

fn ranks_before_exec(x: &NumstatEntry, lx: bool, y: &NumstatEntry, ly: bool) -> (r: bool)
    requires
        lx == low_signal(x.2@),
        ly == low_signal(y.2@),
        total(entry_view(*x)) <= usize::MAX,
        total(entry_view(*y)) <= usize::MAX,
    ensures
        r == ranks_before(entry_view(*x), entry_view(*y)),
{
    if lx != ly {
        !lx
    } else {
        let tx = x.0 + x.1;
        let ty = y.0 + y.1;
        if tx != ty {
            tx > ty
        } else {
            lex_le_exec(&chars_of(x.2.as_str()), &chars_of(y.2.as_str()))
        }
    }
}

proof fn lemma_insert_split(s: Seq<NumstatView>, e: NumstatView, p: int)
    requires
        0 <= p <= s.len(),
        insert_ranked(s, e) == insert_ranked(s.take(p), e) + s.skip(p),
        p > 0,
        !ranks_before(s[p - 1], e),
    ensures
        insert_ranked(s, e) == insert_ranked(s.take(p - 1), e) + s.skip(p - 1),
{
    let t = s.take(p);
    assert(t.drop_last() =~= s.take(p - 1));
    assert(t.last() == s[p - 1]);
    assert(insert_ranked(t, e) == insert_ranked(s.take(p - 1), e).push(s[p - 1]));
    assert(insert_ranked(s.take(p - 1), e).push(s[p - 1]) + s.skip(p)
        =~= insert_ranked(s.take(p - 1), e) + s.skip(p - 1));
}

/// Order `entries` by relevance: high-signal files by lines changed
/// (descending), then low-signal files in the same order; ties break
/// alphabetically. The sort is stable.
pub fn rank_entries(entries: &mut Vec<NumstatEntry>)
    requires
        totals_fit(views(old(entries)@)),
    ensures
        views(final(entries)@) == ranked(views(old(entries)@)),
        is_ranked(views(final(entries)@)),
        views(final(entries)@).to_multiset() == views(old(entries)@).to_multiset(),
        forall|i: int, j: int| 0 <= i < j < final(entries)@.len() && low_signal(final(entries)@[i].2@)
            ==> low_signal(final(entries)@[j].2@),
{
    let n = entries.len();
    let ghost input = views(entries@);
    let mut out: Vec<NumstatEntry> = Vec::new();
    let mut lows: Vec<bool> = Vec::new();
    let mut i: usize = 0;
    proof {
        assert(input.take(0) =~= Seq::<NumstatView>::empty());
        assert(views(out@) =~= Seq::<NumstatView>::empty());
    }
    while i < n
        invariant
            n == entries@.len(),
            input == views(entries@),
            i <= n,
            totals_fit(input),
            views(out@) == ranked(input.take(i as int)),
            lows@.len() == out@.len(),
            forall|t: int| 0 <= t < out@.len() ==> lows@[t] == low_signal((#[trigger] out@[t]).2@),
            totals_fit(views(out@)),
            views(out@).to_multiset() == input.take(i as int).to_multiset(),
        decreases n - i,
    {
        let e = copy_entry(&entries[i]);
        let ghost ev = entry_view(e);
        let le = is_low_signal_path(e.2.as_str());
        assert(input[i as int] == ev);
        assert(total(ev) <= usize::MAX);
        let ghost s = views(out@);
        let mut p = out.len();
        proof {
            assert(s.take(s.len() as int) =~= s);
            assert(s.skip(s.len() as int) =~= Seq::<NumstatView>::empty());
            assert(insert_ranked(s, ev) =~= insert_ranked(s.take(p as int), ev) + s.skip(p as int));
        }
        while p > 0 && !ranks_before_exec(&out[p - 1], lows[p - 1], &e, le)
            invariant
                p <= out@.len(),
                s == views(out@),
                lows@.len() == out@.len(),
                forall|t: int| 0 <= t < out@.len() ==> lows@[t] == low_signal((#[trigger] out@[t]).2@),
                totals_fit(s),
                le == low_signal(e.2@),
                ev == entry_view(e),
                total(ev) <= usize::MAX,
                insert_ranked(s, ev) == insert_ranked(s.take(p as int), ev) + s.skip(p as int),
            decreases p,
        {
            proof {
                assert(s[p - 1] == entry_view(out@[p - 1]));
                lemma_insert_split(s, ev, p as int);
            }
            p = p - 1;
        }
        proof {
            if p == 0 {
                assert(s.take(0) =~= Seq::<NumstatView>::empty());
                assert(insert_ranked(s, ev) =~= s.insert(0, ev));
            } else {
                let t = s.take(p as int);
                assert(t.last() == s[p - 1]);
                assert(s[p - 1] == entry_view(out@[p - 1]));
                assert(insert_ranked(t, ev) == t.push(ev));
                assert(insert_ranked(s, ev) =~= s.insert(p as int, ev));
            }
            assert(input.take(i + 1).drop_last() =~= input.take(i as int));
            assert(input.take(i + 1) =~= input.take(i as int).push(ev));
            lemma_insert_multiset(s, p as int, ev);
            input.take(i as int).to_multiset_ensures();
        }
        let ghost before = out@;
        let ghost lows_before = lows@;
        out.insert(p, e);
        lows.insert(p, le);
        proof {
            assert(views(out@) =~= s.insert(p as int, ev));
            assert forall|t: int| 0 <= t < out@.len() implies lows@[t] == low_signal((#[trigger] out@[t]).2@) by {
                if t < p {
                    assert(out@[t] == before[t] && lows@[t] == lows_before[t]);
                } else if t == p {
                } else {
                    assert(out@[t] == before[t - 1] && lows@[t] == lows_before[t - 1]);
                }
            }
            assert forall|t: int| 0 <= t < views(out@).len() implies total(#[trigger] views(out@)[t]) <= usize::MAX by {
                if t < p {
                    assert(views(out@)[t] == s[t]);
                } else if t > p {
                    assert(views(out@)[t] == s[t - 1]);
                }
            }
        }
        i = i + 1;
    }
    proof {
        assert(input.take(n as int) =~= input);
        lemma_ranked_sorted(input);
        assert forall|i: int, j: int| 0 <= i < j < out@.len() && low_signal(out@[i].2@)
            implies low_signal(out@[j].2@) by {
            assert(views(out@)[i] == entry_view(out@[i]) && views(out@)[j] == entry_view(out@[j]));
            assert(ranks_before(views(out@)[i], views(out@)[j]));
        }
    }
    *entries = out;
}

proof fn lemma_insert_multiset(s: Seq<NumstatView>, p: int, e: NumstatView)
    requires
        0 <= p <= s.len(),
    ensures
        s.insert(p, e).to_multiset() == s.to_multiset().insert(e),
{
    broadcast use vstd::seq_lib::group_to_multiset_ensures;
    let r = s.insert(p, e);
    assert(r.remove(p) =~= s);
    assert(r[p] == e);
    assert(r.to_multiset().remove(e) == s.to_multiset());
    assert(r.to_multiset().count(e) > 0) by {
        assert(r.contains(e));
    }
    assert(r.to_multiset() =~= s.to_multiset().insert(e));
}

} // verus!

verus! {

/// Each element may come before each later one.
pub open spec fn is_ranked(s: Seq<NumstatView>) -> bool {
    forall|i: int, j: int| 0 <= i < j < s.len() ==> ranks_before(#[trigger] s[i], #[trigger] s[j])
}

proof fn lemma_lex_total(a: Seq<char>, b: Seq<char>)
    ensures
        lex_le(a, b) || lex_le(b, a),
    decreases a.len(),
{
    if a.len() > 0 && b.len() > 0 && a[0] == b[0] {
        lemma_lex_total(a.drop_first(), b.drop_first());
    }
}

proof fn lemma_lex_trans(a: Seq<char>, b: Seq<char>, c: Seq<char>)
    requires
        lex_le(a, b),
        lex_le(b, c),
    ensures
        lex_le(a, c),
    decreases a.len(),
{
    if a.len() > 0 && b.len() > 0 && c.len() > 0 && a[0] == b[0] && b[0] == c[0] {
        lemma_lex_trans(a.drop_first(), b.drop_first(), c.drop_first());
    }
}

proof fn lemma_ranks_total(x: NumstatView, y: NumstatView)
    ensures
        ranks_before(x, y) || ranks_before(y, x),
{
    lemma_lex_total(x.2, y.2);
}

proof fn lemma_ranks_trans(x: NumstatView, y: NumstatView, z: NumstatView)
    requires
        ranks_before(x, y),
        ranks_before(y, z),
    ensures
        ranks_before(x, z),
{
    if low_signal(x.2) == low_signal(y.2) && low_signal(y.2) == low_signal(z.2)
        && total(x) == total(y) && total(y) == total(z) {
        lemma_lex_trans(x.2, y.2, z.2);
    }
}

proof fn lemma_insert_elems(s: Seq<NumstatView>, e: NumstatView)
    ensures
        insert_ranked(s, e).len() == s.len() + 1,
        forall|k: int| 0 <= k < insert_ranked(s, e).len() ==>
            #[trigger] insert_ranked(s, e)[k] == e || s.contains(insert_ranked(s, e)[k]),
    decreases s.len(),
{
    if s.len() > 0 && !ranks_before(s.last(), e) {
        lemma_insert_elems(s.drop_last(), e);
        let r = insert_ranked(s, e);
        assert forall|k: int| 0 <= k < r.len() implies #[trigger] r[k] == e || s.contains(r[k]) by {
            if k < r.len() - 1 {
                let x = insert_ranked(s.drop_last(), e)[k];
                if x != e {
                    let t = choose|t: int| 0 <= t < s.drop_last().len() && s.drop_last()[t] == x;
                    assert(s[t] == x);
                }
            } else {
                assert(s[s.len() - 1] == s.last());
            }
        }
    } else if s.len() > 0 {
        let r = insert_ranked(s, e);
        assert forall|k: int| 0 <= k < r.len() implies #[trigger] r[k] == e || s.contains(r[k]) by {
            if k < s.len() {
                assert(r[k] == s[k]);
            }
        }
    }
}

proof fn lemma_insert_sorted(s: Seq<NumstatView>, e: NumstatView)
    requires
        is_ranked(s),
    ensures
        is_ranked(insert_ranked(s, e)),
    decreases s.len(),
{
    if s.len() == 0 {
    } else if ranks_before(s.last(), e) {
        let r = s.push(e);
        assert forall|i: int, j: int| 0 <= i < j < r.len() implies ranks_before(#[trigger] r[i], #[trigger] r[j]) by {
            if j == r.len() - 1 {
                if i < s.len() - 1 {
                    lemma_ranks_trans(s[i], s.last(), e);
                }
            } else {
                assert(r[i] == s[i] && r[j] == s[j]);
            }
        }
    } else {
        let d = s.drop_last();
        assert(is_ranked(d)) by {
            assert forall|i: int, j: int| 0 <= i < j < d.len() implies ranks_before(#[trigger] d[i], #[trigger] d[j]) by {
                assert(d[i] == s[i] && d[j] == s[j]);
            }
        }
        lemma_insert_sorted(d, e);
        lemma_insert_elems(d, e);
        lemma_ranks_total(s.last(), e);
        let q = insert_ranked(d, e);
        let r = q.push(s.last());
        assert forall|i: int, j: int| 0 <= i < j < r.len() implies ranks_before(#[trigger] r[i], #[trigger] r[j]) by {
            if j == r.len() - 1 {
                let x = q[i];
                if x != e {
                    let t = choose|t: int| 0 <= t < d.len() && d[t] == x;
                    assert(s[t] == x);
                    assert(ranks_before(s[t], s[s.len() - 1]));
                }
            } else {
                assert(r[i] == q[i] && r[j] == q[j]);
            }
        }
    }
}

/// The ranking is sorted by the relevance order.
pub proof fn lemma_ranked_sorted(s: Seq<NumstatView>)
    ensures
        is_ranked(ranked(s)),
    decreases s.len(),
{
    if s.len() > 0 {
        lemma_ranked_sorted(s.drop_last());
        lemma_insert_sorted(ranked(s.drop_last()), s.last());
    }
}

} // verus!

verus! {

// ---------------------------------------------------------------------------
// Numstat parsing
// ---------------------------------------------------------------------------

/// `str::split(c)`: the pieces between occurrences of `c` (at least one).
pub open spec fn split_on(s: Seq<char>, c: char) -> Seq<Seq<char>>
    decreases s.len(),
{
    let i = find_char(s, c);
    if i >= s.len() {
        seq![s]
    } else {
        seq![s.take(i as int)] + split_on(s.skip((i + 1) as int), c)
    }
}

/// `str::split_terminator(c)`: like `split`, without a final empty piece.
pub open spec fn split_terminator(s: Seq<char>, c: char) -> Seq<Seq<char>> {
    let p = split_on(s, c);
    if p.last().len() == 0 {
        p.drop_last()
    } else {
        p
    }
}

/// `splitn(3, '\t')` when it yields three parts.
pub open spec fn split_tab3(r: Seq<char>) -> Option<(Seq<char>, Seq<char>, Seq<char>)> {
    let i = find_char(r, '\t');
    if i >= r.len() {
        None
    } else {
        let r2 = r.skip((i + 1) as int);
        let j = find_char(r2, '\t');
        if j >= r2.len() {
            None
        } else {
            Some((r.take(i as int), r2.take(j as int), r2.skip((j + 1) as int)))
        }
    }
}

/// Records of `git diff --numstat -z` fields: `added\tremoved\tpath`; a
/// count that does not parse (a binary file's `-`) is 0; an empty path means
/// a rename whose old and new paths follow as the next two fields; records
/// without a path are dropped, as are fields without two tabs.
pub open spec fn numstat_records(fields: Seq<Seq<char>>) -> Seq<NumstatView>
    decreases fields.len(),
{
    if fields.len() == 0 {
        seq![]
    } else {
        match split_tab3(fields[0]) {
            None => numstat_records(fields.drop_first()),
            Some((a, r, p)) => {
                let added = match crate::text::parse_usize(a) { Some(n) => n, None => 0 };
                let removed = match crate::text::parse_usize(r) { Some(n) => n, None => 0 };
                if p.len() > 0 {
                    seq![(added, removed, p)] + numstat_records(fields.drop_first())
                } else if fields.len() >= 3 {
                    let newp = fields[2];
                    let rest = numstat_records(fields.skip(3));
                    if newp.len() > 0 { seq![(added, removed, newp)] + rest } else { rest }
                } else {
                    seq![]
                }
            },
        }
    }
}

/// The records of the text that `git diff --cached --numstat -z` printed.
pub open spec fn numstat_of(output: Seq<char>) -> Seq<NumstatView> {
    numstat_records(split_terminator(output, '\0'))
}

/// Ranges of `split_on(v, c)`.
pub fn split_ranges(v: &Vec<char>, c: char) -> (rs: Vec<(usize, usize)>)
    ensures
        crate::text::ranges_match(v@, rs@, split_on(v@, c)),
{
    let n = v.len();
    let mut rs: Vec<(usize, usize)> = Vec::new();
    let mut start: usize = 0;
    proof {
        assert(v@.skip(0) =~= v@);
        assert(split_on(v@, c).take(0) + split_on(v@, c) =~= split_on(v@, c));
    }
    loop
        invariant
            n == v@.len(),
            start <= n,
            forall|i: int| 0 <= i < rs@.len() ==> (#[trigger] rs@[i]).0 <= rs@[i].1 <= n,
            crate::text::ranges_match(v@, rs@, split_on(v@, c).take(rs@.len() as int)),
            rs@.len() < split_on(v@, c).len(),
            split_on(v@, c) == split_on(v@, c).take(rs@.len() as int) + split_on(v@.skip(start as int), c),
        decreases n - start,
    {
        let j = crate::text::find_in_range(v, start, n, c);
        let ghost s = v@.skip(start as int);
        let ghost ps = split_on(v@, c);
        let ghost t = rs@.len() as int;
        proof {
            assert(s.take((j - start) as int) =~= v@.subrange(start as int, j as int));
            crate::text::lemma_find_char(s, c, (j - start) as int);
        }
        rs.push((start, j));
        if j < n {
            proof {
                assert(s.skip((j - start) + 1) =~= v@.skip(j + 1));
                assert(ps == ps.take(t) + (seq![v@.subrange(start as int, j as int)] + split_on(v@.skip(j + 1), c)));
                assert(ps.take(t + 1) =~= ps.take(t).push(v@.subrange(start as int, j as int)));
                assert(ps =~= ps.take(t + 1) + split_on(v@.skip(j + 1), c));
                assert(split_on(v@.skip(j + 1), c).len() >= 1);
            }
            start = j + 1;
        } else {
            proof {
                assert(s =~= v@.subrange(start as int, n as int));
                assert(ps =~= ps.take(t).push(s));
                assert(ps.take(t + 1) =~= ps);
            }
            return rs;
        }
    }
}

/// Index of the first tab in `v[lo..hi]`, or `hi`.
fn find_tab(v: &Vec<char>, lo: usize, hi: usize) -> (r: usize)
    requires
        lo <= hi <= v@.len(),
    ensures
        lo <= r <= hi,
        r - lo == find_char(v@.subrange(lo as int, hi as int), '\t'),
{
    crate::text::find_in_range(v, lo, hi, '\t')
}

/// Field ranges of `v` and their texts.
pub open spec fn fields_match(v: Seq<char>, all: Seq<(usize, usize)>, fields: Seq<Seq<char>>) -> bool {
    &&& fields.len() <= all.len()
    &&& forall|i: int| 0 <= i < all.len() ==> (#[trigger] all[i]).0 <= all[i].1 <= v.len()
    &&& forall|i: int| 0 <= i < fields.len() ==> v.subrange(all[i].0 as int, all[i].1 as int) == #[trigger] fields[i]
}

/// One step of `numstat_records`: the record (if any) that starts at field
/// `k`, and the first field after it.
fn numstat_step(v: &Vec<char>, all: &Vec<(usize, usize)>, Ghost(fields): Ghost<Seq<Seq<char>>>, k: usize, m: usize)
    -> (r: (Option<NumstatEntry>, usize))
    requires
        fields_match(v@, all@, fields),
        k < fields.len(),
        m == fields.len(),
    ensures
        k < r.1 <= fields.len(),
        numstat_records(fields.skip(k as int)) == match r.0 {
            Some(e) => seq![entry_view(e)] + numstat_records(fields.skip(r.1 as int)),
            None => numstat_records(fields.skip(r.1 as int)),
        },
{
    let ghost fs = fields.skip(k as int);
    let (lo, hi) = all[k];
    let ghost rec = v@.subrange(lo as int, hi as int);
    assert(fs[0] == rec);
    assert(fs.drop_first() =~= fields.skip(k + 1));
    let i = find_tab(v, lo, hi);
    if i == hi {
        return (None, k + 1);
    }
    let j = find_tab(v, i + 1, hi);
    proof {
        let r2 = rec.skip((i - lo) + 1);
        assert(r2 =~= v@.subrange(i + 1, hi as int));
    }
    if j == hi {
        return (None, k + 1);
    }
    proof {
        let r2 = rec.skip((i - lo) + 1);
        assert(rec.take((i - lo) as int) =~= v@.subrange(lo as int, i as int));
        assert(r2.take((j - (i + 1)) as int) =~= v@.subrange(i + 1, j as int));
        assert(r2.skip((j - (i + 1)) + 1) =~= v@.subrange(j + 1, hi as int));
    }
    let added = match crate::text::parse_usize_range(v, lo, i) { Some(n) => n, None => 0 };
    let removed = match crate::text::parse_usize_range(v, i + 1, j) { Some(n) => n, None => 0 };
    if j + 1 < hi {
        let mut p: Vec<char> = Vec::new();
        crate::text::push_range(&mut p, v, j + 1, hi);
        let e = (added, removed, string_of(&p));
        (Some(e), k + 1)
    } else if m - k > 2 {
        let (nl, nh) = all[k + 2];
        proof {
            assert(fs[2] == fields[k + 2]);
            assert(fs.skip(3) =~= fields.skip(k + 3));
        }
        if nl < nh {
            let mut p: Vec<char> = Vec::new();
            crate::text::push_range(&mut p, v, nl, nh);
            let e = (added, removed, string_of(&p));
            (Some(e), k + 3)
        } else {
            (None, k + 3)
        }
    } else {
        proof {
            assert(fields.skip(m as int) =~= Seq::<Seq<char>>::empty());
        }
        (None, m)
    }
}

/// Parse the text that `git diff --cached --numstat -z` printed into
/// `(insertions, deletions, path)` records; binary files count `0, 0`; a
/// rename is reported under its new path.
pub fn staged_numstat(output: &str) -> (r: Vec<NumstatEntry>)
    ensures
        views(r@) == numstat_of(output@),
{
    let v = chars_of(output);
    let all = split_ranges(&v, '\0');
    let ghost ps = split_on(v@, '\0');
    let mut m = all.len();
    let (l0, h0) = all[m - 1];
    if l0 == h0 {
        m = m - 1;
    }
    let ghost fields = split_terminator(v@, '\0');
    proof {
        assert(ps.last() == v@.subrange(l0 as int, h0 as int));
        assert(fields.len() == m);
        assert forall|i: int| 0 <= i < m implies v@.subrange(all@[i].0 as int, all@[i].1 as int) == #[trigger] fields[i] by {
        }
        assert(fields.skip(0) =~= fields);
    }
    let mut out: Vec<NumstatEntry> = Vec::new();
    let mut k: usize = 0;
    while k < m
        invariant
            m == fields.len(),
            k <= m,
            fields_match(v@, all@, fields),
            numstat_records(fields) == views(out@) + numstat_records(fields.skip(k as int)),
        decreases m - k,
    {
        let ghost before = views(out@);
        let (e, next) = numstat_step(&v, &all, Ghost(fields), k, m);
        match e {
            Some(e) => {
                out.push(e);
                proof {
                    let after = views(out@);
                    assert(after =~= before.push(entry_view(e)));
                    assert(before + (seq![entry_view(e)] + numstat_records(fields.skip(next as int)))
                        =~= after + numstat_records(fields.skip(next as int)));
                }
            },
            None => {},
        }
        k = next;
    }
    proof {
        assert(fields.skip(m as int) =~= Seq::<Seq<char>>::empty());
        assert(views(out@) + Seq::<NumstatView>::empty()
            =~= views(out@));
    }
    out
}

} // verus!

verus! {

// ---------------------------------------------------------------------------
// Staged file lists and summaries
// ---------------------------------------------------------------------------

/// The texts of a list of strings.
pub open spec fn texts(s: Seq<String>) -> Seq<Seq<char>> {
    s.map_values(|x: String| x@)
}

/// Paths of records, in order.
pub open spec fn paths(s: Seq<NumstatView>) -> Seq<Seq<char>> {
    s.map_values(|e: NumstatView| e.2)
}

/// Staged file paths ordered by relevance, from the text that
/// `git diff --cached --numstat -z` printed.
pub fn staged_files_ranked(numstat_output: &str) -> (r: Vec<String>)
    requires
        totals_fit(numstat_of(numstat_output@)),
    ensures
        texts(r@) == paths(ranked(numstat_of(numstat_output@))),
{
    let mut entries = staged_numstat(numstat_output);
    rank_entries(&mut entries);
    let mut out: Vec<String> = Vec::new();
    let mut i: usize = 0;
    while i < entries.len()
        invariant
            i <= entries@.len(),
            texts(out@) == paths(views(entries@)).take(i as int),
        decreases entries@.len() - i,
    {
        let ghost before = texts(out@);
        out.push(entries[i].2.clone());
        proof {
            assert(texts(out@) =~= before.push(entries@[i as int].2@));
            assert(paths(views(entries@))[i as int] == entries@[i as int].2@);
            assert(paths(views(entries@)).take(i + 1) =~= paths(views(entries@)).take(i as int).push(entries@[i as int].2@));
        }
        i = i + 1;
    }
    assert(paths(views(entries@)).take(i as int) =~= paths(views(entries@)));
    out
}

/// Sum of insertions of records.
pub open spec fn sum_added(s: Seq<NumstatView>) -> nat
    decreases s.len(),
{
    if s.len() == 0 { 0 } else { sum_added(s.drop_last()) + s.last().0 }
}

/// Sum of deletions of records.
pub open spec fn sum_removed(s: Seq<NumstatView>) -> nat
    decreases s.len(),
{
    if s.len() == 0 { 0 } else { sum_removed(s.drop_last()) + s.last().1 }
}

/// The insertion and deletion totals fit a `usize` (the summary adds them).
pub open spec fn sums_fit(s: Seq<NumstatView>) -> bool {
    sum_added(s) <= usize::MAX && sum_removed(s) <= usize::MAX
}

proof fn lemma_sums_prefix(s: Seq<NumstatView>, i: int)
    requires
        0 <= i <= s.len(),
    ensures
        sum_added(s.take(i)) <= sum_added(s),
        sum_removed(s.take(i)) <= sum_removed(s),
    decreases s.len() - i,
{
    if i < s.len() {
        lemma_sums_prefix(s, i + 1);
        assert(s.take(i + 1).drop_last() =~= s.take(i));
    } else {
        assert(s.take(i) =~= s);
    }
}

/// Totals of records: insertions and deletions.
fn sum_entries(es: &Vec<NumstatEntry>) -> (r: (usize, usize))
    requires
        sums_fit(views(es@)),
    ensures
        r.0 == sum_added(views(es@)),
        r.1 == sum_removed(views(es@)),
{
    let ghost vs = views(es@);
    let mut a: usize = 0;
    let mut d: usize = 0;
    let mut i: usize = 0;
    proof {
        assert(vs.take(0) =~= Seq::<NumstatView>::empty());
    }
    while i < es.len()
        invariant
            vs == views(es@),
            i <= es@.len(),
            sums_fit(vs),
            a == sum_added(vs.take(i as int)),
            d == sum_removed(vs.take(i as int)),
        decreases es@.len() - i,
    {
        proof {
            assert(vs.take(i + 1).drop_last() =~= vs.take(i as int));
            lemma_sums_prefix(vs, i + 1);
        }
        a = a + es[i].0;
        d = d + es[i].1;
        i = i + 1;
    }
    assert(vs.take(i as int) =~= vs);
    (a, d)
}

/// `(file_count, total_insertions, total_deletions)` from the text that
/// `git diff --cached --numstat -z` printed.
pub fn staged_summary(numstat_output: &str) -> (r: (usize, usize, usize))
    requires
        sums_fit(numstat_of(numstat_output@)),
    ensures
        r.0 == numstat_of(numstat_output@).len(),
        r.1 == sum_added(numstat_of(numstat_output@)),
        r.2 == sum_removed(numstat_of(numstat_output@)),
{
    let entries = staged_numstat(numstat_output);
    let (a, d) = sum_entries(&entries);
    (entries.len(), a, d)
}

/// Do the line totals, and the insertion and deletion sums, of a numstat
/// listing fit a `usize`? (The stat header and the summary add them.)
pub fn numstat_fits(numstat_output: &str) -> (b: bool)
    ensures
        b == (totals_fit(numstat_of(numstat_output@)) && sums_fit(numstat_of(numstat_output@))),
{
    let entries = staged_numstat(numstat_output);
    let ghost vs = views(entries@);
    let mut a: u128 = 0;
    let mut d: u128 = 0;
    let mut i: usize = 0;
    proof {
        assert(vs.take(0) =~= Seq::<NumstatView>::empty());
    }
    while i < entries.len()
        invariant
            vs == views(entries@),
            vs == numstat_of(numstat_output@),
            i <= entries@.len(),
            a == sum_added(vs.take(i as int)),
            d == sum_removed(vs.take(i as int)),
            a <= usize::MAX,
            d <= usize::MAX,
            forall|k: int| 0 <= k < i ==> #[trigger] total(vs[k]) <= usize::MAX,
        decreases entries@.len() - i,
    {
        let (x, y) = (entries[i].0, entries[i].1);
        proof {
            assert(vs.take(i + 1).drop_last() =~= vs.take(i as int));
            assert(vs[i as int] == entry_view(entries@[i as int]));
        }
        if (x as u128) + (y as u128) > usize::MAX as u128 {
            assert(total(vs[i as int]) > usize::MAX);
            return false;
        }
        a = a + x as u128;
        d = d + y as u128;
        if a > usize::MAX as u128 || d > usize::MAX as u128 {
            proof {
                lemma_sums_prefix(vs, i + 1);
            }
            return false;
        }
        i = i + 1;
    }
    assert(vs.take(i as int) =~= vs);
    true
}

/// Why a git step failed.
#[derive(Debug, PartialEq, Eq)]
pub enum GitError {
    /// `git diff --cached --name-only` listed no file.
    NoStagedChanges,
    /// git could not be started (the command as shown).
    Launch(String),
    /// git failed (the command as shown, and its trimmed stderr).
    Failed(String, String),
}

/// The message of each error.
pub open spec fn git_error_message(e: GitError) -> Seq<char> {
    match e {
        GitError::NoStagedChanges => "no staged changes. Stage files with \"git add\" first."@,
        GitError::Launch(c) => "Failed to run: git "@ + c@,
        GitError::Failed(c, err) => "git "@ + c@ + ": "@ + err@,
    }
}

impl GitError {
    /// The message shown to the user.
    pub fn message(&self) -> (s: String)
        ensures
            s@ == git_error_message(*self),
    {
        let mut out: Vec<char> = Vec::new();
        match self {
            GitError::NoStagedChanges => {
                crate::text::push_str(&mut out, "no staged changes. Stage files with \"git add\" first.");
            },
            GitError::Launch(c) => {
                crate::text::push_str(&mut out, "Failed to run: git ");
                crate::text::push_str(&mut out, c.as_str());
            },
            GitError::Failed(c, err) => {
                crate::text::push_str(&mut out, "git ");
                crate::text::push_str(&mut out, c.as_str());
                crate::text::push_str(&mut out, ": ");
                crate::text::push_str(&mut out, err.as_str());
            },
        }
        string_of(&out)
    }
}

/// The staged files from the (trimmed) text that
/// `git diff --cached --name-only` printed: one per line; none is an error.
pub fn staged_files(name_only_output: &str) -> (r: Result<Vec<String>, GitError>)
    ensures
        name_only_output@.len() == 0 <==> r is Err,
        r matches Err(e) ==> e is NoStagedChanges,
        r matches Ok(files) ==> texts(files@) == crate::text::lines(name_only_output@),
{
    let v = chars_of(name_only_output);
    if v.len() == 0 {
        return Err(GitError::NoStagedChanges);
    }
    let rs = crate::text::line_ranges(&v);
    let ghost ls = crate::text::lines(v@);
    let out = range_strings(&v, &rs, Ghost(ls));
    Ok(out)
}

/// The strings of the ranges `rs` of `v`.
fn range_strings(v: &Vec<char>, rs: &Vec<(usize, usize)>, Ghost(ls): Ghost<Seq<Seq<char>>>) -> (out: Vec<String>)
    requires
        crate::text::ranges_match(v@, rs@, ls),
    ensures
        texts(out@) == ls,
{
    let mut out: Vec<String> = Vec::new();
    let mut i: usize = 0;
    while i < rs.len()
        invariant
            i <= rs@.len(),
            crate::text::ranges_match(v@, rs@, ls),
            texts(out@) == ls.take(i as int),
        decreases rs@.len() - i,
    {
        let (lo, hi) = rs[i];
        let mut p: Vec<char> = Vec::new();
        crate::text::push_range(&mut p, v, lo, hi);
        let ghost before = texts(out@);
        out.push(string_of(&p));
        proof {
            assert(p@ == ls[i as int]);
            assert(texts(out@) =~= before.push(p@));
            assert(ls.take(i + 1) =~= ls.take(i as int).push(ls[i as int]));
        }
        i = i + 1;
    }
    assert(ls.take(i as int) =~= ls);
    out
}

/// The non-empty parts, in order.
pub open spec fn nonempty(parts: Seq<Seq<char>>) -> Seq<Seq<char>>
    decreases parts.len(),
{
    if parts.len() == 0 {
        seq![]
    } else if parts.last().len() == 0 {
        nonempty(parts.drop_last())
    } else {
        nonempty(parts.drop_last()).push(parts.last())
    }
}

/// Combine the per-file staged diffs (as `git diff --cached -- <file>`
/// printed them, one per file in the requested order): empty ones are
/// skipped, the others joined by newlines in the given order.
pub fn staged_diff_for_files(parts: &Vec<String>) -> (r: String)
    ensures
        r@ == crate::text::join(nonempty(texts(parts@)), seq!['\n']),
{
    let ghost ps = texts(parts@);
    let mut out: Vec<char> = Vec::new();
    let mut i: usize = 0;
    proof {
        assert(ps.take(0) =~= Seq::<Seq<char>>::empty());
    }
    while i < parts.len()
        invariant
            ps == texts(parts@),
            i <= parts@.len(),
            out@ == crate::text::join(nonempty(ps.take(i as int)), seq!['\n']),
            (out@.len() == 0) == (nonempty(ps.take(i as int)).len() == 0),
        decreases parts@.len() - i,
    {
        let part = chars_of(parts[i].as_str());
        proof {
            assert(ps.take(i + 1).drop_last() =~= ps.take(i as int));
            assert(ps.take(i + 1).last() == part@);
        }
        if part.len() > 0 {
            let ghost before = nonempty(ps.take(i as int));
            if out.len() > 0 {
                out.push('\n');
            }
            crate::text::push_all(&mut out, &part);
            proof {
                let after = before.push(part@);
                assert(after.drop_last() =~= before);
                if before.len() == 0 {
                    assert(after =~= seq![part@]);
                    assert(out@ =~= part@);
                } else {
                    assert(out@ =~= crate::text::join(before, seq!['\n']) + seq!['\n'] + part@);
                }
            }
        }
        i = i + 1;
    }
    assert(ps.take(i as int) =~= ps);
    string_of(&out)
}

} // verus!

verus! {

// ---------------------------------------------------------------------------
// Ranked stat header
// ---------------------------------------------------------------------------

/// `n` spaces.
pub open spec fn spaces(n: nat) -> Seq<char> {
    Seq::new(n, |i: int| ' ')
}

/// `format!("{s:<w$}")`: `s` followed by spaces up to `w` characters.
pub open spec fn pad_right(s: Seq<char>, w: nat) -> Seq<char> {
    if s.len() < w { s + spaces((w - s.len()) as nat) } else { s }
}

/// `format!("{s:>w$}")`: spaces up to `w` characters, then `s`.
pub open spec fn pad_left(s: Seq<char>, w: nat) -> Seq<char> {
    if s.len() < w { spaces((w - s.len()) as nat) + s } else { s }
}

/// Widest path, in bytes (`str::len`).
pub open spec fn name_width(es: Seq<NumstatView>) -> nat
    decreases es.len(),
{
    if es.len() == 0 {
        0
    } else {
        let w = name_width(es.drop_last());
        let x = crate::text::blen(es.last().2);
        if x > w { x } else { w }
    }
}

/// Widest line total, in decimal digits.
pub open spec fn total_width(es: Seq<NumstatView>) -> nat
    decreases es.len(),
{
    if es.len() == 0 {
        0
    } else {
        let w = total_width(es.drop_last());
        let x = crate::text::dec(total(es.last())).len();
        if x > w { x } else { w }
    }
}

/// One line of the ranked stat header.
pub open spec fn stat_line(e: NumstatView, nw: nat, tw: nat) -> Seq<char> {
    " "@ + pad_right(e.2, nw) + " | "@ + pad_left(crate::text::dec(total(e)), tw) + "  (+"@
        + crate::text::dec(e.0) + " -"@ + crate::text::dec(e.1) + ")"@
        + (if low_signal(e.2) { " (low-signal)"@ } else { Seq::<char>::empty() }) + "\n"@
}

/// The lines of the ranked stat header, in order.
pub open spec fn stat_lines(es: Seq<NumstatView>, nw: nat, tw: nat) -> Seq<char>
    decreases es.len(),
{
    if es.len() == 0 {
        seq![]
    } else {
        stat_lines(es.drop_last(), nw, tw) + stat_line(es.last(), nw, tw)
    }
}

/// `""` for one, `"s"` otherwise.
pub open spec fn plural(n: nat) -> Seq<char> {
    if n == 1 { Seq::<char>::empty() } else { "s"@ }
}

/// The closing summary of the stat header.
pub open spec fn stat_summary(files: nat, ins: nat, del: nat) -> Seq<char> {
    " "@ + crate::text::dec(files) + " file"@ + plural(files) + " changed, "@
        + crate::text::dec(ins) + " insertion"@ + plural(ins) + "(+), "@
        + crate::text::dec(del) + " deletion"@ + plural(del) + "(-)"@
}

/// The ranked stat header of some records: one line per file in relevance
/// order, then the summary; empty when there are no records.
pub open spec fn stat_text(es: Seq<NumstatView>) -> Seq<char> {
    if es.len() == 0 {
        seq![]
    } else {
        let r = ranked(es);
        stat_lines(r, name_width(r), total_width(r)) + stat_summary(r.len(), sum_added(r), sum_removed(r))
    }
}

proof fn lemma_sum_insert(s: Seq<NumstatView>, e: NumstatView)
    ensures
        sum_added(insert_ranked(s, e)) == sum_added(s) + e.0,
        sum_removed(insert_ranked(s, e)) == sum_removed(s) + e.1,
    decreases s.len(),
{
    if s.len() > 0 && !ranks_before(s.last(), e) {
        lemma_sum_insert(s.drop_last(), e);
        let q = insert_ranked(s.drop_last(), e);
        assert(insert_ranked(s, e) == q.push(s.last()));
        assert(q.push(s.last()).drop_last() =~= q);
        assert(q.push(s.last()).last() == s.last());
        assert(sum_added(q.push(s.last())) == sum_added(q) + s.last().0);
        assert(sum_removed(q.push(s.last())) == sum_removed(q) + s.last().1);
        assert(sum_added(s) == sum_added(s.drop_last()) + s.last().0);
        assert(sum_removed(s) == sum_removed(s.drop_last()) + s.last().1);
    } else if s.len() > 0 {
        assert(insert_ranked(s, e) == s.push(e));
        assert(s.push(e).drop_last() =~= s);
        assert(s.push(e).last() == e);
        assert(sum_added(s.push(e)) == sum_added(s) + e.0);
        assert(sum_removed(s.push(e)) == sum_removed(s) + e.1);
    } else {
        assert(insert_ranked(s, e) == seq![e]);
        assert(seq![e].drop_last() =~= Seq::<NumstatView>::empty());
        assert(seq![e].last() == e);
        assert(sum_added(seq![e]) == sum_added(Seq::<NumstatView>::empty()) + e.0);
        assert(sum_removed(seq![e]) == sum_removed(Seq::<NumstatView>::empty()) + e.1);
    }
}

/// Ranking keeps the totals.
pub proof fn lemma_sums_ranked(s: Seq<NumstatView>)
    ensures
        sum_added(ranked(s)) == sum_added(s),
        sum_removed(ranked(s)) == sum_removed(s),
        ranked(s).len() == s.len(),
    decreases s.len(),
{
    if s.len() > 0 {
        lemma_sums_ranked(s.drop_last());
        lemma_sum_insert(ranked(s.drop_last()), s.last());
        lemma_insert_len(ranked(s.drop_last()), s.last());
    }
}

proof fn lemma_insert_len(s: Seq<NumstatView>, e: NumstatView)
    ensures
        insert_ranked(s, e).len() == s.len() + 1,
    decreases s.len(),
{
    if s.len() > 0 && !ranks_before(s.last(), e) {
        lemma_insert_len(s.drop_last(), e);
    }
}

fn push_spaces(out: &mut Vec<char>, n: usize)
    ensures
        final(out)@ == old(out)@ + spaces(n as nat),
{
    let mut i: usize = 0;
    while i < n
        invariant
            i <= n,
            out@ == old(out)@ + spaces(i as nat),
        decreases n - i,
    {
        out.push(' ');
        assert(spaces((i + 1) as nat) =~= spaces(i as nat).push(' '));
        i = i + 1;
    }
}

fn dec_chars(n: usize) -> (v: Vec<char>)
    ensures
        v@ == crate::text::dec(n as nat),
{
    let mut v: Vec<char> = Vec::new();
    crate::text::push_decimal(&mut v, n);
    assert(Seq::<char>::empty() + crate::text::dec(n as nat) =~= crate::text::dec(n as nat));
    v
}

fn push_plural(out: &mut Vec<char>, n: usize)
    ensures
        final(out)@ == old(out)@ + plural(n as nat),
{
    if n != 1 {
        crate::text::push_str(out, "s");
    } else {
        assert(old(out)@ + Seq::<char>::empty() =~= old(out)@);
    }
}

fn padded_right(v: &Vec<char>, w: usize) -> (r: Vec<char>)
    ensures
        r@ == pad_right(v@, w as nat),
{
    let mut r: Vec<char> = Vec::new();
    crate::text::push_all(&mut r, v);
    if v.len() < w {
        push_spaces(&mut r, w - v.len());
    }
    assert(Seq::<char>::empty() + v@ =~= v@);
    r
}

fn padded_left(v: &Vec<char>, w: usize) -> (r: Vec<char>)
    ensures
        r@ == pad_left(v@, w as nat),
{
    let mut r: Vec<char> = Vec::new();
    if v.len() < w {
        push_spaces(&mut r, w - v.len());
    }
    crate::text::push_all(&mut r, v);
    assert(Seq::<char>::empty() + v@ =~= v@);
    assert(Seq::<char>::empty() + spaces((w - v@.len()) as nat) =~= spaces((w - v@.len()) as nat));
    r
}

fn push_stat_line(out: &mut Vec<char>, e: &NumstatEntry, nw: usize, tw: usize)
    requires
        total(entry_view(*e)) <= usize::MAX,
    ensures
        final(out)@ == old(out)@ + stat_line(entry_view(*e), nw as nat, tw as nat),
{
    let name = chars_of(e.2.as_str());
    let mut l = chars_of(" ");
    crate::text::push_all(&mut l, &padded_right(&name, nw));
    crate::text::push_str(&mut l, " | ");
    crate::text::push_all(&mut l, &padded_left(&dec_chars(e.0 + e.1), tw));
    crate::text::push_str(&mut l, "  (+");
    crate::text::push_decimal(&mut l, e.0);
    crate::text::push_str(&mut l, " -");
    crate::text::push_decimal(&mut l, e.1);
    crate::text::push_str(&mut l, ")");
    let marker = if is_low_signal_path(e.2.as_str()) { chars_of(" (low-signal)") } else { Vec::new() };
    crate::text::push_all(&mut l, &marker);
    crate::text::push_str(&mut l, "\n");
    crate::text::push_all(out, &l);
}

fn summary_chars(n: usize, a: usize, d: usize) -> (l: Vec<char>)
    ensures
        l@ == stat_summary(n as nat, a as nat, d as nat),
{
    let mut l = chars_of(" ");
    crate::text::push_decimal(&mut l, n);
    crate::text::push_str(&mut l, " file");
    push_plural(&mut l, n);
    crate::text::push_str(&mut l, " changed, ");
    crate::text::push_decimal(&mut l, a);
    crate::text::push_str(&mut l, " insertion");
    push_plural(&mut l, a);
    crate::text::push_str(&mut l, "(+), ");
    crate::text::push_decimal(&mut l, d);
    crate::text::push_str(&mut l, " deletion");
    push_plural(&mut l, d);
    crate::text::push_str(&mut l, "(-)");
    l
}

proof fn lemma_ranked_totals_fit(es: Seq<NumstatView>, r: Seq<NumstatView>)
    requires
        totals_fit(es),
        r == ranked(es),
    ensures
        totals_fit(r),
{
    broadcast use vstd::seq_lib::group_to_multiset_ensures;
    lemma_ranked_multiset(es);
    assert forall|t: int| 0 <= t < r.len() implies total(#[trigger] r[t]) <= usize::MAX by {
        assert(r.contains(r[t]));
        assert(es.to_multiset().count(r[t]) > 0);
        assert(es.contains(r[t]));
    }
}

/// Ranking keeps the records.
pub proof fn lemma_ranked_multiset(s: Seq<NumstatView>)
    ensures
        ranked(s).to_multiset() == s.to_multiset(),
    decreases s.len(),
{
    broadcast use vstd::seq_lib::group_to_multiset_ensures;
    if s.len() > 0 {
        lemma_ranked_multiset(s.drop_last());
        lemma_insert_ranked_multiset(ranked(s.drop_last()), s.last());
        assert(s.drop_last().push(s.last()) =~= s);
    }
}

proof fn lemma_insert_ranked_multiset(s: Seq<NumstatView>, e: NumstatView)
    ensures
        insert_ranked(s, e).to_multiset() == s.to_multiset().insert(e),
    decreases s.len(),
{
    broadcast use vstd::seq_lib::group_to_multiset_ensures;
    if s.len() > 0 && !ranks_before(s.last(), e) {
        lemma_insert_ranked_multiset(s.drop_last(), e);
        assert(s.drop_last().push(s.last()) =~= s);
        assert(insert_ranked(s, e).to_multiset() =~= s.to_multiset().insert(e));
    }
}

/// The ranked stat header from the text that
/// `git diff --cached --numstat -z` printed: each file on a line with its
/// line total, `(+added -removed)` and a `(low-signal)` mark where it
/// applies, most relevant first, followed by
/// `N files changed, X insertions(+), Y deletions(-)`.
pub fn staged_stat_ranked(numstat_output: &str) -> (r: String)
    requires
        totals_fit(numstat_of(numstat_output@)),
        sums_fit(numstat_of(numstat_output@)),
    ensures
        r@ == stat_text(numstat_of(numstat_output@)),
{
    let mut entries = staged_numstat(numstat_output);
    let ghost es = numstat_of(numstat_output@);
    if entries.len() == 0 {
        return string_of(&Vec::new());
    }
    rank_entries(&mut entries);
    let ghost r = ranked(es);
    proof {
        lemma_sums_ranked(es);
    }
    let n = entries.len();
    let mut nw: usize = 0;
    let mut tw: usize = 0;
    let mut i: usize = 0;
    proof {
        assert(r.take(0) =~= Seq::<NumstatView>::empty());
        lemma_ranked_totals_fit(es, r);
    }
    while i < n
        invariant
            n == entries@.len(),
            r == views(entries@),
            i <= n,
            totals_fit(r),
            nw == name_width(r.take(i as int)),
            tw == total_width(r.take(i as int)),
        decreases n - i,
    {
        assert(r[i as int] == entry_view(entries@[i as int]));
        assert(total(r[i as int]) <= usize::MAX);
        let x = crate::text::str_len(entries[i].2.as_str());
        let t = entries[i].0 + entries[i].1;
        let d = dec_chars(t);
        proof {
            assert(r.take(i + 1).drop_last() =~= r.take(i as int));
            assert(r.take(i + 1).last() == r[i as int]);
        }
        if x > nw {
            nw = x;
        }
        if d.len() > tw {
            tw = d.len();
        }
        i = i + 1;
    }
    assert(r.take(n as int) =~= r);
    let mut out: Vec<char> = Vec::new();
    let mut k: usize = 0;
    proof {
        assert(r.take(0) =~= Seq::<NumstatView>::empty());
    }
    while k < n
        invariant
            n == entries@.len(),
            r == views(entries@),
            k <= n,
            totals_fit(r),
            nw == name_width(r),
            tw == total_width(r),
            out@ == stat_lines(r.take(k as int), nw as nat, tw as nat),
        decreases n - k,
    {
        let ghost before = out@;
        assert(r[k as int] == entry_view(entries@[k as int]));
        push_stat_line(&mut out, &entries[k], nw, tw);
        proof {
            let ev = r[k as int];
            assert(r.take(k + 1).drop_last() =~= r.take(k as int));
            assert(r.take(k + 1).last() == ev);
        }
        k = k + 1;
    }
    assert(r.take(n as int) =~= r);
    let (a, d) = sum_entries(&entries);
    crate::text::push_all(&mut out, &summary_chars(n, a, d));
    string_of(&out)
}

} // verus!

verus! {

// ---------------------------------------------------------------------------
// Unstaged preview and git paths
// ---------------------------------------------------------------------------

/// The preview lines for untracked files.
pub open spec fn untracked_lines(files: Seq<Seq<char>>) -> Seq<char>
    decreases files.len(),
{
    if files.len() == 0 {
        seq![]
    } else {
        untracked_lines(files.drop_last()) + " "@ + files.last() + " | untracked\n"@
    }
}

/// The preview of changes about to be staged.
pub open spec fn unstaged_preview(diff_stat: Seq<char>, untracked: Seq<char>) -> Seq<char> {
    if untracked.len() == 0 {
        diff_stat
    } else {
        let base = if diff_stat.len() == 0 { diff_stat } else { diff_stat.push('\n') };
        crate::text::trim_end(base + untracked_lines(crate::text::lines(untracked)))
    }
}

/// Preview of unstaged changes: the (trimmed) text of `git diff --stat`,
/// followed by ` <file> | untracked` for each line of the (trimmed) text of
/// `git ls-files --others --exclude-standard`; trailing whitespace removed
/// when untracked files were added.
pub fn unstaged_stat(diff_stat: &str, untracked: &str) -> (r: String)
    ensures
        r@ == unstaged_preview(diff_stat@, untracked@),
{
    let u = chars_of(untracked);
    if u.len() == 0 {
        return diff_stat.to_owned();
    }
    let mut out = chars_of(diff_stat);
    if out.len() > 0 {
        out.push('\n');
    }
    let ghost base = out@;
    let rs = crate::text::line_ranges(&u);
    let ghost ls = crate::text::lines(u@);
    let mut i: usize = 0;
    proof {
        assert(ls.take(0) =~= Seq::<Seq<char>>::empty());
        assert(base + Seq::<char>::empty() =~= base);
    }
    while i < rs.len()
        invariant
            i <= rs@.len(),
            crate::text::ranges_match(u@, rs@, ls),
            out@ == base + untracked_lines(ls.take(i as int)),
        decreases rs@.len() - i,
    {
        let (lo, hi) = rs[i];
        let mut l = chars_of(" ");
        crate::text::push_range(&mut l, &u, lo, hi);
        crate::text::push_str(&mut l, " | untracked\n");
        crate::text::push_all(&mut out, &l);
        proof {
            assert(ls.take(i + 1).drop_last() =~= ls.take(i as int));
            assert(ls.take(i + 1).last() == ls[i as int]);
            assert(out@ =~= base + untracked_lines(ls.take(i + 1)));
        }
        i = i + 1;
    }
    assert(ls.take(i as int) =~= ls);
    let end = crate::text::skip_ws_back(&out, 0, out.len());
    let mut r: Vec<char> = Vec::new();
    crate::text::push_range(&mut r, &out, 0, end);
    proof {
        assert(out@.subrange(0, out@.len() as int) =~= out@);
        assert(Seq::<char>::empty() + out@.subrange(0, end as int) =~= out@.subrange(0, end as int));
    }
    string_of(&r)
}

/// `Path::join(repo, p)` for a relative `p`: a `/` goes between unless
/// `repo` is empty or already ends with one.
pub open spec fn join_path(repo: Seq<char>, p: Seq<char>) -> Seq<char> {
    if repo.len() == 0 || repo.last() == '/' { repo + p } else { repo.push('/') + p }
}

/// Resolve what `git rev-parse --git-path <spec>` printed (trimmed): an
/// absolute path stays; a relative one is taken below `repo`.
pub fn git_path(repo: &str, rev_parse_output: &str) -> (r: String)
    ensures
        r@ == if rev_parse_output@.len() > 0 && rev_parse_output@[0] == '/' {
            rev_parse_output@
        } else {
            join_path(repo@, rev_parse_output@)
        },
{
    let p = chars_of(rev_parse_output);
    if p.len() > 0 && p[0] == '/' {
        return rev_parse_output.to_owned();
    }
    let mut out = chars_of(repo);
    if out.len() > 0 && out[out.len() - 1] != '/' {
        out.push('/');
    }
    crate::text::push_all(&mut out, &p);
    string_of(&out)
}


// ---------------------------------------------------------------------------
// git invocations
// ---------------------------------------------------------------------------

/// A git invocation the tool makes.
#[derive(Debug, Clone, PartialEq, Eq)]
pub enum GitCommand {
    /// `git diff --cached --name-only`
    StagedNames,
    /// `git diff --cached [--unified=N]`
    StagedDiff(Option<u32>),
    /// `git diff --cached [--unified=N] -- <file>`
    StagedDiffOf(Option<u32>, String),
    /// `git diff --cached --numstat -z` (output kept raw)
    StagedNumstat,
    /// `git status --porcelain`
    Status,
    /// `git diff --stat`
    UnstagedStat,
    /// `git ls-files --others --exclude-standard`
    Untracked,
    /// `git add -A`
    AddAll,
    /// `git push`
    Push,
    /// `git rev-parse --show-toplevel`
    TopLevel,
    /// `git rev-parse --git-path <path>`
    GitPath(String),
    /// `git commit -m <message>` (run with `ACM_SKIP_HOOK=1`)
    Commit(String),
}

/// `--unified=N`.
pub open spec fn unified(n: nat) -> Seq<char> {
    "--unified="@ + dec(n)
}

/// The context option, when one is asked for.
pub open spec fn context_args(c: Option<u32>) -> Seq<Seq<char>> {
    match c {
        Some(n) => seq![unified(n as nat)],
        None => seq![],
    }
}

/// The arguments of each invocation.
pub open spec fn command_args(c: GitCommand) -> Seq<Seq<char>> {
    match c {
        GitCommand::StagedNames => seq!["diff"@, "--cached"@, "--name-only"@],
        GitCommand::StagedDiff(ctx) => seq!["diff"@, "--cached"@] + context_args(ctx),
        GitCommand::StagedDiffOf(ctx, f) => seq!["diff"@, "--cached"@] + context_args(ctx) + seq!["--"@, f@],
        GitCommand::StagedNumstat => seq!["diff"@, "--cached"@, "--numstat"@, "-z"@],
        GitCommand::Status => seq!["status"@, "--porcelain"@],
        GitCommand::UnstagedStat => seq!["diff"@, "--stat"@],
        GitCommand::Untracked => seq!["ls-files"@, "--others"@, "--exclude-standard"@],
        GitCommand::AddAll => seq!["add"@, "-A"@],
        GitCommand::Push => seq!["push"@],
        GitCommand::TopLevel => seq!["rev-parse"@, "--show-toplevel"@],
        GitCommand::GitPath(p) => seq!["rev-parse"@, "--git-path"@, p@],
        GitCommand::Commit(m) => seq!["commit"@, "-m"@, m@],
    }
}

/// How an invocation is named in errors: its arguments joined by spaces,
/// except a commit, which is just `commit`.
pub open spec fn command_label(c: GitCommand) -> Seq<char> {
    match c {
        GitCommand::Commit(_) => "commit"@,
        _ => join(command_args(c), " "@),
    }
}

fn push_arg(args: &mut Vec<String>, a: &str)
    ensures
        texts(final(args)@) == texts(old(args)@).push(a@),
{
    let ghost before = texts(args@);
    args.push(a.to_owned());
    assert(texts(args@) =~= before.push(a@));
}

fn push_context(args: &mut Vec<String>, ctx: Option<u32>)
    ensures
        texts(final(args)@) == texts(old(args)@) + context_args(ctx),
{
    match ctx {
        Some(n) => {
            let mut a = chars_of("--unified=");
            crate::text::push_decimal(&mut a, n as usize);
            let ghost before = texts(args@);
            args.push(string_of(&a));
            assert(texts(args@) =~= before + context_args(ctx));
        },
        None => {
            assert(texts(args@) =~= texts(args@) + context_args(ctx));
        },
    }
}

impl GitCommand {
    /// The arguments passed to `git`.
    pub fn args(&self) -> (r: Vec<String>)
        ensures
            texts(r@) == command_args(*self),
    {
        let mut r: Vec<String> = Vec::new();
        match self {
            GitCommand::StagedNames => {
                push_arg(&mut r, "diff");
                push_arg(&mut r, "--cached");
                push_arg(&mut r, "--name-only");
            },
            GitCommand::StagedDiff(ctx) => {
                push_arg(&mut r, "diff");
                push_arg(&mut r, "--cached");
                push_context(&mut r, *ctx);
            },
            GitCommand::StagedDiffOf(ctx, f) => {
                push_arg(&mut r, "diff");
                push_arg(&mut r, "--cached");
                push_context(&mut r, *ctx);
                push_arg(&mut r, "--");
                push_arg(&mut r, f.as_str());
            },
            GitCommand::StagedNumstat => {
                push_arg(&mut r, "diff");
                push_arg(&mut r, "--cached");
                push_arg(&mut r, "--numstat");
                push_arg(&mut r, "-z");
            },
            GitCommand::Status => {
                push_arg(&mut r, "status");
                push_arg(&mut r, "--porcelain");
            },
            GitCommand::UnstagedStat => {
                push_arg(&mut r, "diff");
                push_arg(&mut r, "--stat");
            },
            GitCommand::Untracked => {
                push_arg(&mut r, "ls-files");
                push_arg(&mut r, "--others");
                push_arg(&mut r, "--exclude-standard");
            },
            GitCommand::AddAll => {
                push_arg(&mut r, "add");
                push_arg(&mut r, "-A");
            },
            GitCommand::Push => {
                push_arg(&mut r, "push");
            },
            GitCommand::TopLevel => {
                push_arg(&mut r, "rev-parse");
                push_arg(&mut r, "--show-toplevel");
            },
            GitCommand::GitPath(p) => {
                push_arg(&mut r, "rev-parse");
                push_arg(&mut r, "--git-path");
                push_arg(&mut r, p.as_str());
            },
            GitCommand::Commit(m) => {
                push_arg(&mut r, "commit");
                push_arg(&mut r, "-m");
                push_arg(&mut r, m.as_str());
            },
        }
        assert(texts(r@) =~= command_args(*self));
        r
    }

    /// The invocation as errors name it (see `command_label`).
    pub fn label(&self) -> (s: String)
        ensures
            s@ == command_label(*self),
    {
        match self {
            GitCommand::Commit(_) => string_of(&chars_of("commit")),
            _ => {
                let args = self.args();
                let mut parts: Vec<Vec<char>> = Vec::new();
                let mut i: usize = 0;
                while i < args.len()
                    invariant
                        i <= args@.len(),
                        vtexts(parts@) == texts(args@).take(i as int),
                    decreases args@.len() - i,
                {
                    let ghost before = vtexts(parts@);
                    parts.push(chars_of(args[i].as_str()));
                    assert(vtexts(parts@) =~= before.push(args@[i as int]@));
                    assert(texts(args@).take(i + 1) =~= texts(args@).take(i as int).push(args@[i as int]@));
                    i = i + 1;
                }
                assert(texts(args@).take(i as int) =~= texts(args@));
                let mut out: Vec<char> = Vec::new();
                crate::text::push_joined(&mut out, &parts, " ");
                assert(out@ =~= join(command_args(*self), " "@));
                string_of(&out)
            },
        }
    }

    /// The environment variable the invocation runs with, if any: a commit
    /// sets `ACM_SKIP_HOOK=1`, so that the tool's own hook does not
    /// generate a message for the tool's own commit.
    pub fn env(&self) -> (r: Option<(String, String)>)
        ensures
            *self is Commit ==> (r matches Some((k, v)) && k@ == "ACM_SKIP_HOOK"@ && v@ == "1"@),
            !(*self is Commit) ==> r is None,
    {
        match self {
            GitCommand::Commit(_) => Some((string_of(&chars_of("ACM_SKIP_HOOK")), string_of(&chars_of("1")))),
            _ => None,
        }
    }

    /// Is the output used as it is, untrimmed?
    pub fn keeps_raw_output(&self) -> (b: bool)
        ensures
            b == (*self is StagedNumstat),
    {
        match self {
            GitCommand::StagedNumstat => true,
            _ => false,
        }
    }
}

/// How a git invocation ended: whether it succeeded, and what it printed.
pub struct GitRun {
    pub success: bool,
    pub stdout: String,
    pub stderr: String,
}

/// The result of an invocation: its output on success (trimmed, except the
/// numstat listing), otherwise an error with the command and the trimmed
/// stderr.
pub fn git_result(cmd: &GitCommand, run: GitRun) -> (r: Result<String, GitError>)
    ensures
        run.success ==> (r matches Ok(out) && out@ == (if *cmd is StagedNumstat { run.stdout@ } else { trim(run.stdout@) })),
        !run.success ==> (r matches Err(GitError::Failed(c, e)) && c@ == command_label(*cmd) && e@ == trim(run.stderr@)),
{
    if run.success {
        if cmd.keeps_raw_output() {
            return Ok(run.stdout);
        }
        let v = chars_of(run.stdout.as_str());
        let (a, b) = trim_range(&v, 0, v.len());
        assert(v@.subrange(0, v@.len() as int) =~= v@);
        let mut out: Vec<char> = Vec::new();
        crate::text::push_range(&mut out, &v, a, b);
        assert(out@ =~= v@.subrange(a as int, b as int));
        return Ok(string_of(&out));
    }
    let v = chars_of(run.stderr.as_str());
    let (a, b) = trim_range(&v, 0, v.len());
    assert(v@.subrange(0, v@.len() as int) =~= v@);
    let mut err: Vec<char> = Vec::new();
    crate::text::push_range(&mut err, &v, a, b);
    assert(err@ =~= v@.subrange(a as int, b as int));
    Err(GitError::Failed(cmd.label(), string_of(&err)))
}

/// The error when git could not be started for `cmd`.
pub fn git_launch_error(cmd: &GitCommand) -> (e: GitError)
    ensures
        e matches GitError::Launch(c) && c@ == command_label(*cmd),
{
    GitError::Launch(cmd.label())
}

/// The staged diff: `git diff --cached`, with `--unified=N` when a number
/// of context lines is given (0 for a compact diff).
pub fn staged_diff(context_lines: Option<u32>) -> (c: GitCommand)
    ensures
        c == GitCommand::StagedDiff(context_lines),
{
    GitCommand::StagedDiff(context_lines)
}

/// The working tree's status: `git status --porcelain`, one line per
/// changed or untracked file.
pub fn working_tree_status() -> (c: GitCommand)
    ensures
        c == GitCommand::Status,
{
    GitCommand::Status
}

/// Are there unstaged or untracked changes, by the result of
/// `git status --porcelain`? A failed status counts as none.
pub fn has_unstaged_changes(status: &Result<String, GitError>) -> (b: bool)
    ensures
        b == (status matches Ok(out) && out@.len() > 0),
{
    match status {
        Ok(out) => chars_of(out.as_str()).len() > 0,
        Err(_) => false,
    }
}

/// Stage every change, tracked and untracked: `git add -A`.
pub fn stage_all() -> (c: GitCommand)
    ensures
        c == GitCommand::AddAll,
{
    GitCommand::AddAll
}

/// Push the current branch: `git push`.
pub fn push() -> (c: GitCommand)
    ensures
        c == GitCommand::Push,
{
    GitCommand::Push
}

/// One `git diff --cached [--unified=N] -- <file>` per file, in the given
/// order (git's own path filtering would not keep that order).
pub fn diff_commands(context_lines: Option<u32>, files: &Vec<String>) -> (r: Vec<GitCommand>)
    ensures
        r@.len() == files@.len(),
        forall|i: int| 0 <= i < files@.len() ==> (#[trigger] r@[i] matches GitCommand::StagedDiffOf(c, f)
            && c == context_lines && f@ == files@[i]@),
{
    let mut r: Vec<GitCommand> = Vec::new();
    let mut i: usize = 0;
    while i < files.len()
        invariant
            i <= files@.len(),
            r@.len() == i,
            forall|k: int| 0 <= k < i ==> (#[trigger] r@[k] matches GitCommand::StagedDiffOf(c, f)
                && c == context_lines && f@ == files@[k]@),
        decreases files@.len() - i,
    {
        r.push(GitCommand::StagedDiffOf(context_lines, files[i].as_str().to_owned()));
        i = i + 1;
    }
    r
}
} // verus!
