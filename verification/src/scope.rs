//! The commit scope: the directory that all staged files share.
use vstd::prelude::*;
use crate::text::{chars_of, string_of, join, push_range, push_all, range_eq, vtexts};
use crate::unixpath::{components, parent_components, component_ranges};
use crate::git::texts;

verus! {

/// Directory components of a path (those of `Path::parent`; none when the
/// path has no parent or its parent is empty).
pub open spec fn dir_parts(f: Seq<char>) -> Seq<Seq<char>> {
    match parent_components(f) {
        Some(c) => c,
        None => seq![],
    }
}

/// Length of the longest common prefix of two component lists.
pub open spec fn shared(a: Seq<Seq<char>>, b: Seq<Seq<char>>) -> nat
    decreases a.len(),
{
    if a.len() == 0 || b.len() == 0 || a[0] != b[0] {
        0
    } else {
        1 + shared(a.drop_first(), b.drop_first())
    }
}

/// Length of the prefix of `first` that every list of `rest` shares.
pub open spec fn common_len(first: Seq<Seq<char>>, rest: Seq<Seq<Seq<char>>>) -> nat
    decreases rest.len(),
{
    if rest.len() == 0 {
        first.len()
    } else {
        let c = common_len(first, rest.drop_last());
        let s = shared(first, rest.last());
        if s < c { s } else { c }
    }
}

/// Top-level directories that say nothing about the scope.
pub open spec fn known_prefix(c: Seq<char>) -> bool {
    ||| c == "src"@
    ||| c == "pkg"@
    ||| c == "libs"@
    ||| c == "apps"@
    ||| c == "lib"@
    ||| c == "packages"@
}

/// The common directory of `files`, without a known top-level prefix.
pub open spec fn common_dir(files: Seq<Seq<char>>) -> Seq<Seq<char>> {
    let parts = files.map_values(|f: Seq<char>| dir_parts(f));
    let first = parts[0];
    let common = first.take(common_len(first, parts.drop_first()) as int);
    if common.len() > 0 && known_prefix(common[0]) {
        common.drop_first()
    } else {
        common
    }
}

/// The scope of a commit touching `files`: `None` when there are no files,
/// when a file sits at the root, or when no directory is left once a known
/// prefix is stripped; otherwise the common directory joined by `/`.
pub open spec fn scope_of(files: Seq<Seq<char>>) -> Option<Seq<char>> {
    if files.len() == 0 {
        None
    } else if exists|i: int| 0 <= i < files.len() && dir_parts(#[trigger] files[i]).len() == 0 {
        None
    } else if common_dir(files).len() == 0 {
        None
    } else {
        Some(join(common_dir(files), "/"@))
    }
}


/// Directory components of one path.
fn dir_parts_of(f: &str) -> (r: Vec<Vec<char>>)
    ensures
        vtexts(r@) == dir_parts(f@),
{
    let v = chars_of(f);
    let rs = component_ranges(&v);
    let n = rs.len();
    let mut out: Vec<Vec<char>> = Vec::new();
    if n == 0 {
        assert(vtexts(out@) =~= dir_parts(f@));
        return out;
    }
    let root = vec!['/'];
    assert(root@ =~= seq!['/']);
    let (a, b) = rs[n - 1];
    if range_eq(&v, a, b, &root) {
        assert(vtexts(out@) =~= dir_parts(f@));
        return out;
    }
    let ghost cs = components(v@);
    let mut i: usize = 0;
    while i < n - 1
        invariant
            n == rs@.len(),
            n == cs.len(),
            cs == components(v@),
            i <= n - 1,
            forall|k: int| 0 <= k < rs@.len() ==> {
                &&& (#[trigger] rs@[k]).0 <= rs@[k].1 <= v@.len()
                &&& v@.subrange(rs@[k].0 as int, rs@[k].1 as int) == cs[k]
            },
            vtexts(out@) == cs.take(i as int),
        decreases n - 1 - i,
    {
        let (lo, hi) = rs[i];
        let mut part: Vec<char> = Vec::new();
        push_range(&mut part, &v, lo, hi);
        let ghost before = vtexts(out@);
        out.push(part);
        proof {
            assert(vtexts(out@) =~= before.push(cs[i as int]));
            assert(cs.take(i + 1) =~= cs.take(i as int).push(cs[i as int]));
        }
        i = i + 1;
    }
    proof {
        assert(cs.take((n - 1) as int) =~= cs.drop_last());
    }
    out
}

/// `shared` after a common prefix of length `k`.
proof fn lemma_shared_skip(a: Seq<Seq<char>>, b: Seq<Seq<char>>, k: int)
    requires
        0 <= k <= a.len(),
        k <= b.len(),
        forall|i: int| 0 <= i < k ==> a[i] == b[i],
    ensures
        shared(a, b) == k + shared(a.skip(k), b.skip(k)),
    decreases k,
{
    if k > 0 {
        lemma_shared_skip(a.drop_first(), b.drop_first(), k - 1);
        assert(a.drop_first().skip(k - 1) =~= a.skip(k));
        assert(b.drop_first().skip(k - 1) =~= b.skip(k));
    } else {
        assert(a.skip(0) =~= a);
        assert(b.skip(0) =~= b);
    }
}

/// Length of the longest common prefix of two component lists.
fn shared_exec(a: &Vec<Vec<char>>, b: &Vec<Vec<char>>) -> (r: usize)
    ensures
        r == shared(vtexts(a@), vtexts(b@)),
        r <= a@.len(),
{
    let ghost x = vtexts(a@);
    let ghost y = vtexts(b@);
    let mut k: usize = 0;
    while k < a.len() && k < b.len()
        invariant
            x == vtexts(a@),
            y == vtexts(b@),
            k <= a@.len(),
            k <= b@.len(),
            forall|i: int| 0 <= i < k ==> x[i] == y[i],
        decreases a@.len() - k,
    {
        let bk = &b[k];
        if !range_eq(&a[k], 0, a[k].len(), bk) {
            proof {
                assert(a@[k as int]@.subrange(0, a@[k as int]@.len() as int) =~= a@[k as int]@);
                lemma_shared_skip(x, y, k as int);
                assert(x.skip(k as int)[0] == x[k as int]);
                assert(y.skip(k as int)[0] == y[k as int]);
            }
            return k;
        }
        proof {
            assert(a@[k as int]@.subrange(0, a@[k as int]@.len() as int) =~= a@[k as int]@);
        }
        k = k + 1;
    }
    proof {
        lemma_shared_skip(x, y, k as int);
    }
    k
}

/// `common_len(first, rest)` never exceeds the length of `first`.
proof fn lemma_common_le(first: Seq<Seq<char>>, rest: Seq<Seq<Seq<char>>>)
    ensures
        common_len(first, rest) <= first.len(),
    decreases rest.len(),
{
    if rest.len() > 0 {
        lemma_common_le(first, rest.drop_last());
    }
}

/// Is `c` one of the known top-level prefixes?
fn is_known_prefix(c: &Vec<char>) -> (b: bool)
    ensures
        b == known_prefix(c@),
{
    let n = c.len();
    assert(c@.subrange(0, n as int) =~= c@);
    range_eq(c, 0, n, &chars_of("src")) || range_eq(c, 0, n, &chars_of("pkg"))
        || range_eq(c, 0, n, &chars_of("libs")) || range_eq(c, 0, n, &chars_of("apps"))
        || range_eq(c, 0, n, &chars_of("lib")) || range_eq(c, 0, n, &chars_of("packages"))
}

/// Auto-detect the commit scope from the staged file paths: the directory
/// that all of them share, with a leading `src`, `pkg`, `libs`, `apps`, `lib`
/// or `packages` stripped, its components joined by `/`. `None` when `files`
/// is empty, when a file sits at the root (has no directory), or when no
/// common directory is left.
pub fn detect_scope(files: &[String]) -> (r: Option<String>)
    ensures
        r matches Some(s) ==> scope_of(texts(files@)) == Some(s@),
        r is None ==> scope_of(texts(files@)) is None,
{
    let ghost fs = texts(files@);
    if files.len() == 0 {
        return None;
    }
    let ghost parts = fs.map_values(|f: Seq<char>| dir_parts(f));
    let mut all: Vec<Vec<Vec<char>>> = Vec::new();
    let mut i: usize = 0;
    while i < files.len()
        invariant
            fs == texts(files@),
            parts == fs.map_values(|f: Seq<char>| dir_parts(f)),
            i <= files@.len(),
            all@.len() == i,
            forall|k: int| 0 <= k < i ==> vtexts((#[trigger] all@[k])@) == parts[k],
            forall|k: int| 0 <= k < i ==> (#[trigger] all@[k])@.len() > 0,
        decreases files@.len() - i,
    {
        let p = dir_parts_of(files[i].as_str());
        if p.len() == 0 {
            proof {
                assert(dir_parts(fs[i as int]).len() == 0);
            }
            return None;
        }
        all.push(p);
        i = i + 1;
    }
    proof {
        assert forall|k: int| 0 <= k < fs.len() implies dir_parts(#[trigger] fs[k]).len() != 0 by {
            assert(vtexts(all@[k]@) == parts[k]);
        }
    }
    let first = &all[0];
    let ghost f0 = parts[0];
    let ghost rest = parts.drop_first();
    let mut common: usize = first.len();
    let mut j: usize = 1;
    proof {
        assert(rest.take(0) =~= Seq::<Seq<Seq<char>>>::empty());
    }
    while j < all.len()
        invariant
            all@.len() == parts.len(),
            parts.len() >= 1,
            1 <= j <= all@.len(),
            *first == all@[0],
            f0 == parts[0],
            vtexts(first@) == f0,
            rest == parts.drop_first(),
            forall|k: int| 0 <= k < all@.len() ==> vtexts((#[trigger] all@[k])@) == parts[k],
            common == common_len(f0, rest.take(j - 1)),
        decreases all@.len() - j,
    {
        let s = shared_exec(first, &all[j]);
        proof {
            assert(rest.take(j as int).drop_last() =~= rest.take(j - 1));
            assert(rest.take(j as int).last() == parts[j as int]);
        }
        if s < common {
            common = s;
        }
        j = j + 1;
    }
    proof {
        assert(rest.take(j - 1) =~= rest);
        lemma_common_le(f0, rest);
    }
    let mut start: usize = 0;
    if common > 0 && is_known_prefix(&first[0]) {
        start = 1;
    }
    let ghost cd = f0.take(common as int);
    let ghost parts_out = f0.subrange(start as int, common as int);
    proof {
        if common > 0 {
            assert(cd[0] == vtexts(first@)[0]);
        }
        assert(common_dir(fs) =~= parts_out);
    }
    if start >= common {
        return None;
    }
    let mut out: Vec<char> = Vec::new();
    let mut k: usize = start;
    while k < common
        invariant
            start < common <= first@.len(),
            start <= k <= common,
            vtexts(first@) == f0,
            parts_out == f0.subrange(start as int, common as int),
            k > start ==> out@ == join(parts_out.take(k - start), "/"@),
            k == start ==> out@.len() == 0,
        decreases common - k,
    {
        proof {
            reveal_strlit("/");
        }
        let ghost before = parts_out.take(k - start);
        if k > start {
            out.push('/');
        }
        push_all(&mut out, &first[k]);
        proof {
            let after = parts_out.take(k + 1 - start);
            assert(after.drop_last() =~= before);
            assert(after.last() == f0[k as int]);
            if k == start {
                assert(after =~= seq![f0[k as int]]);
                assert(out@ =~= f0[k as int]);
            } else {
                assert(out@ =~= join(before, "/"@) + "/"@ + after.last());
            }
        }
        k = k + 1;
    }
    proof {
        assert(parts_out.take(common - start) =~= parts_out);
    }
    Some(string_of(&out))
}

/// Lists that share at least `k` leading components agree on their first `k`.
proof fn lemma_shared_take(a: Seq<Seq<char>>, b: Seq<Seq<char>>, k: int)
    requires
        0 <= k <= shared(a, b),
    ensures
        k <= a.len(),
        k <= b.len(),
        a.take(k) == b.take(k),
    decreases k,
{
    if k > 0 {
        lemma_shared_take(a.drop_first(), b.drop_first(), k - 1);
        assert(a.take(k) =~= seq![a[0]] + a.drop_first().take(k - 1));
        assert(b.take(k) =~= seq![b[0]] + b.drop_first().take(k - 1));
    } else {
        assert(a.take(0) =~= b.take(0));
    }
}

/// `common_len` is at most what `first` shares with each list of `rest`.
proof fn lemma_common_shared(first: Seq<Seq<char>>, rest: Seq<Seq<Seq<char>>>, j: int)
    requires
        0 <= j < rest.len(),
    ensures
        common_len(first, rest) <= shared(first, rest[j]),
    decreases rest.len(),
{
    if j < rest.len() - 1 {
        lemma_common_shared(first, rest.drop_last(), j);
    }
}

/// A detected scope is a directory that every staged file lives under: each
/// file's directory components begin with the common directory of the first
/// file (of which the scope is the part after any known prefix).
pub proof fn lemma_scope_is_shared_dir(files: Seq<Seq<char>>, i: int)
    requires
        scope_of(files) is Some,
        0 <= i < files.len(),
    ensures
        ({
            let first = dir_parts(files[0]);
            let c = common_len(first, files.map_values(|f: Seq<char>| dir_parts(f)).drop_first());
            &&& c <= dir_parts(files[i]).len()
            &&& dir_parts(files[i]).take(c as int) == first.take(c as int)
        }),
{
    let parts = files.map_values(|f: Seq<char>| dir_parts(f));
    let first = parts[0];
    let rest = parts.drop_first();
    let c = common_len(first, rest);
    lemma_common_le(first, rest);
    if i > 0 {
        lemma_common_shared(first, rest, i - 1);
        assert(rest[i - 1] == dir_parts(files[i]));
        lemma_shared_take(first, dir_parts(files[i]), c as int);
    }
}

/// Every list of `parts` has at least `k` components, and all of them agree
/// on their first `k`.
pub open spec fn agree_on(parts: Seq<Seq<Seq<char>>>, k: int) -> bool {
    forall|i: int, j: int|
        0 <= i < parts.len() && 0 <= j < parts.len() ==> k <= (#[trigger] parts[i]).len() && parts[i].take(k)
            == (#[trigger] parts[j]).take(k)
}

/// Lists that agree on their first `k` components share at least `k`.
proof fn lemma_take_shared(a: Seq<Seq<char>>, b: Seq<Seq<char>>, k: int)
    requires
        0 <= k <= a.len(),
        k <= b.len(),
        a.take(k) == b.take(k),
    ensures
        k <= shared(a, b),
{
    assert forall|i: int| 0 <= i < k implies a[i] == b[i] by {
        assert(a.take(k)[i] == a[i]);
        assert(b.take(k)[i] == b[i]);
    }
    lemma_shared_skip(a, b, k);
}

/// A length that `first` shares with every list of `rest` is at most
/// `common_len(first, rest)`.
proof fn lemma_common_ge(first: Seq<Seq<char>>, rest: Seq<Seq<Seq<char>>>, k: int)
    requires
        0 <= k <= first.len(),
        forall|j: int| 0 <= j < rest.len() ==> k <= shared(first, #[trigger] rest[j]),
    ensures
        k <= common_len(first, rest),
    decreases rest.len(),
{
    if rest.len() > 0 {
        let r = rest.drop_last();
        assert forall|j: int| 0 <= j < r.len() implies k <= shared(first, #[trigger] r[j]) by {
            assert(r[j] == rest[j]);
        }
        lemma_common_ge(first, r, k);
        assert(k <= shared(first, rest[rest.len() - 1]));
    }
}

/// The common length of a non-empty list of lists is one on which all of
/// them agree, and the largest such.
proof fn lemma_common_is_longest(parts: Seq<Seq<Seq<char>>>, k: int)
    requires
        parts.len() > 0,
    ensures
        agree_on(parts, common_len(parts[0], parts.drop_first()) as int),
        0 <= k && agree_on(parts, k) ==> k <= common_len(parts[0], parts.drop_first()),
{
    let first = parts[0];
    let rest = parts.drop_first();
    let c = common_len(first, rest) as int;
    lemma_common_le(first, rest);
    assert forall|i: int| 0 <= i < parts.len() implies c <= (#[trigger] parts[i]).len() && parts[i].take(c)
        == first.take(c) by {
        if i > 0 {
            lemma_common_shared(first, rest, i - 1);
            assert(rest[i - 1] == parts[i]);
            lemma_shared_take(first, parts[i], c);
        }
    }
    assert forall|i: int, j: int| 0 <= i < parts.len() && 0 <= j < parts.len() implies c <= (
    #[trigger] parts[i]).len() && parts[i].take(c) == (#[trigger] parts[j]).take(c) by {
        assert(parts[i].take(c) == first.take(c));
        assert(parts[j].take(c) == first.take(c));
    }
    if 0 <= k && agree_on(parts, k) {
        assert(k <= parts[0].len() && parts[0].take(k) == parts[0].take(k));
        assert forall|j: int| 0 <= j < rest.len() implies k <= shared(first, #[trigger] rest[j]) by {
            assert(rest[j] == parts[j + 1]);
            assert(k <= parts[j + 1].len() && parts[j + 1].take(k) == parts[0].take(k));
            lemma_take_shared(first, rest[j], k);
        }
        lemma_common_ge(first, rest, k);
    }
}

/// Agreement depends only on which lists there are, not on their order.
proof fn lemma_agree_members(a: Seq<Seq<Seq<char>>>, b: Seq<Seq<Seq<char>>>, k: int)
    requires
        forall|x: Seq<Seq<char>>| b.contains(x) ==> a.contains(x),
        agree_on(a, k),
    ensures
        agree_on(b, k),
{
    assert forall|i: int, j: int| 0 <= i < b.len() && 0 <= j < b.len() implies k <= (#[trigger] b[i]).len() && b[i].take(
        k,
    ) == (#[trigger] b[j]).take(k) by {
        assert(b.contains(b[i]));
        assert(b.contains(b[j]));
        let ii = choose|ii: int| 0 <= ii < a.len() && a[ii] == b[i];
        let jj = choose|jj: int| 0 <= jj < a.len() && a[jj] == b[j];
        assert(k <= a[ii].len() && a[ii].take(k) == a[jj].take(k));
    }
}

/// The scope does not depend on the order of the staged files: any
/// reordering of `files` gives the same scope.
pub proof fn lemma_scope_order_independent(files: Seq<Seq<char>>, other: Seq<Seq<char>>)
    requires
        other.to_multiset() == files.to_multiset(),
    ensures
        scope_of(other) == scope_of(files),
{
    files.to_multiset_ensures();
    other.to_multiset_ensures();
    assert(files.len() == other.len());
    assert forall|f: Seq<char>| other.contains(f) <==> files.contains(f) by {
        assert(other.contains(f) <==> other.to_multiset().count(f) > 0);
        assert(files.contains(f) <==> files.to_multiset().count(f) > 0);
    }
    if files.len() == 0 {
        return;
    }
    let root_a = exists|i: int| 0 <= i < files.len() && dir_parts(#[trigger] files[i]).len() == 0;
    let root_b = exists|i: int| 0 <= i < other.len() && dir_parts(#[trigger] other[i]).len() == 0;
    if root_a {
        let i = choose|i: int| 0 <= i < files.len() && dir_parts(#[trigger] files[i]).len() == 0;
        assert(files.contains(files[i]));
        let m = choose|m: int| 0 <= m < other.len() && other[m] == files[i];
        assert(dir_parts(other[m]).len() == 0);
    }
    if root_b {
        let i = choose|i: int| 0 <= i < other.len() && dir_parts(#[trigger] other[i]).len() == 0;
        assert(other.contains(other[i]));
        let m = choose|m: int| 0 <= m < files.len() && files[m] == other[i];
        assert(dir_parts(files[m]).len() == 0);
    }
    if root_a || root_b {
        return;
    }
    let pa = files.map_values(|f: Seq<char>| dir_parts(f));
    let pb = other.map_values(|f: Seq<char>| dir_parts(f));
    assert forall|x: Seq<Seq<char>>| pb.contains(x) implies pa.contains(x) by {
        let i = choose|i: int| 0 <= i < pb.len() && pb[i] == x;
        assert(other.contains(other[i]));
        let m = choose|m: int| 0 <= m < files.len() && files[m] == other[i];
        assert(pa[m] == x);
    }
    assert forall|x: Seq<Seq<char>>| pa.contains(x) implies pb.contains(x) by {
        let i = choose|i: int| 0 <= i < pa.len() && pa[i] == x;
        assert(files.contains(files[i]));
        let m = choose|m: int| 0 <= m < other.len() && other[m] == files[i];
        assert(pb[m] == x);
    }
    let ca = common_len(pa[0], pa.drop_first()) as int;
    let cb = common_len(pb[0], pb.drop_first()) as int;
    lemma_common_is_longest(pa, cb);
    lemma_common_is_longest(pb, ca);
    lemma_agree_members(pa, pb, ca);
    lemma_agree_members(pb, pa, cb);
    assert(ca == cb);
    assert(pa.contains(pb[0]));
    let m = choose|m: int| 0 <= m < pa.len() && pa[m] == pb[0];
    assert(ca <= pa[m].len() && pa[m].take(ca) == pa[0].take(ca));
    assert(common_dir(other) == common_dir(files));
}

} // verus!
