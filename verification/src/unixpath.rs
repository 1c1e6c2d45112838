//! Unix path components, as `std::path::Path::components` yields them.
//!
//! A component is modelled by its text: `"/"` for the root, `"."` for a
//! leading current-directory marker, `".."` for a parent marker and the name
//! itself for a normal component.
use vstd::prelude::*;
use crate::text::{find_char, lemma_find_char, find_in_range, starts_with, range_eq};

verus! {

/// The `/`-separated pieces of `s` other than `""` and `"."`.
pub open spec fn pieces(s: Seq<char>) -> Seq<Seq<char>>
    decreases s.len(),
{
    if s.len() == 0 {
        seq![]
    } else {
        let i = find_char(s, '/');
        let head = s.take(i as int);
        let rest: Seq<Seq<char>> = if i < s.len() { pieces(s.skip((i + 1) as int)) } else { seq![] };
        if head.len() == 0 || head == seq!['.'] {
            rest
        } else {
            seq![head] + rest
        }
    }
}

/// The component that a path starts with before its pieces, if any.
pub open spec fn lead(s: Seq<char>) -> Seq<Seq<char>> {
    if s.len() > 0 && s[0] == '/' {
        seq![seq!['/']]
    } else if s == seq!['.'] || starts_with(s, seq!['.', '/']) {
        seq![seq!['.']]
    } else {
        seq![]
    }
}

/// `Path::new(s).components()`, each component by its text.
pub open spec fn components(s: Seq<char>) -> Seq<Seq<char>> {
    lead(s) + pieces(s)
}

/// A normal component (a name), as opposed to `/`, `.` or `..`.
pub open spec fn is_normal(c: Seq<char>) -> bool {
    c != seq!['/'] && c != seq!['.'] && c != seq!['.', '.']
}

/// `Path::file_name`: the last component when it is a name.
pub open spec fn file_name(s: Seq<char>) -> Option<Seq<char>> {
    let c = components(s);
    if c.len() > 0 && is_normal(c.last()) {
        Some(c.last())
    } else {
        None
    }
}

/// Components of `Path::parent`, when there is a parent: all components but
/// the last, provided the last one is not the root.
pub open spec fn parent_components(s: Seq<char>) -> Option<Seq<Seq<char>>> {
    let c = components(s);
    if c.len() > 0 && c.last() != seq!['/'] {
        Some(c.drop_last())
    } else {
        None
    }
}

proof fn lemma_pieces_step(s: Seq<char>, k: int)
    requires
        0 <= k <= s.len(),
        s.len() > 0,
        forall|i: int| 0 <= i < k ==> s[i] != '/',
        k == s.len() || s[k] == '/',
    ensures
        pieces(s) == {
            let head = s.take(k);
            let rest: Seq<Seq<char>> = if k < s.len() { pieces(s.skip(k + 1)) } else { seq![] };
            if head.len() == 0 || head == seq!['.'] { rest } else { seq![head] + rest }
        },
{
    lemma_find_char(s, '/', k);
}

/// The component texts of `v`, as index ranges (`"/"` for the root is
/// reported with the range of the leading slash).
pub fn component_ranges(v: &Vec<char>) -> (rs: Vec<(usize, usize)>)
    ensures
        rs@.len() == components(v@).len(),
        forall|i: int| 0 <= i < rs@.len() ==> {
            &&& (#[trigger] rs@[i]).0 <= rs@[i].1 <= v@.len()
            &&& v@.subrange(rs@[i].0 as int, rs@[i].1 as int) == components(v@)[i]
        },
{
    let n = v.len();
    let mut rs: Vec<(usize, usize)> = Vec::new();
    let dot = vec!['.'];
    assert(dot@ =~= seq!['.']);
    if n > 0 && v[0] == '/' {
        rs.push((0, 1));
        proof {
            assert(v@.subrange(0, 1) =~= seq!['/']);
        }
    } else if (n == 1 && v[0] == '.') || (n >= 2 && v[0] == '.' && v[1] == '/') {
        rs.push((0, 1));
        proof {
            assert(v@.subrange(0, 1) =~= seq!['.']);
            if n == 1 {
                assert(v@ =~= seq!['.']);
            } else {
                assert(v@.subrange(0, 2) =~= seq!['.', '/']);
            }
        }
    } else {
        proof {
            if n == 1 {
                assert(v@ != seq!['.']) by {
                    assert(v@[0] != seq!['.'][0]);
                }
            }
            if n >= 2 {
                assert(!starts_with(v@, seq!['.', '/'])) by {
                    if starts_with(v@, seq!['.', '/']) {
                        assert(v@.subrange(0, 2)[0] == '.' && v@.subrange(0, 2)[1] == '/');
                    }
                }
                assert(v@ != seq!['.']) by {
                    assert(v@.len() != 1);
                }
            }
        }
    }
    let ghost lead_len = rs@.len();
    assert(rs@.len() == lead(v@).len());
    let mut start: usize = 0;
    proof {
        assert(v@.skip(0) =~= v@);
    }
    while start < n
        invariant
            n == v@.len(),
            start <= n,
            dot@ == seq!['.'],
            rs@.len() >= lead_len,
            lead_len == lead(v@).len(),
            forall|i: int| 0 <= i < rs@.len() ==> (#[trigger] rs@[i]).0 <= rs@[i].1 <= n,
            forall|i: int| 0 <= i < rs@.len() ==> v@.subrange(rs@[i].0 as int, rs@[i].1 as int)
                == (lead(v@) + pieces(v@).take(rs@.len() - lead_len))[i],
            rs@.len() - lead_len <= pieces(v@).len(),
            pieces(v@) == pieces(v@).take(rs@.len() - lead_len) + pieces(v@.skip(start as int)),
        decreases n - start,
    {
        let j = find_in_range(v, start, n, '/');
        let ghost s = v@.skip(start as int);
        let ghost old_rs = rs@;
        let ghost t = old_rs.len() - lead_len;
        proof {
            assert forall|i: int| 0 <= i < j - start implies s[i] != '/' by {
                assert(s[i] == v@[start + i]);
            }
            lemma_pieces_step(s, (j - start) as int);
            assert(s.take((j - start) as int) =~= v@.subrange(start as int, j as int));
            if j < n {
                assert(s.skip((j - start) + 1) =~= v@.skip(j + 1));
            }
        }
        let empty = j == start;
        let is_dot = range_eq(v, start, j, &dot);
        let ghost ps = pieces(v@);
        let ghost rest: Seq<Seq<char>> = if j < n { pieces(v@.skip(j + 1)) } else { seq![] };
        proof {
            let k = (j - start) as int;
            let rest_s: Seq<Seq<char>> = if k < s.len() { pieces(s.skip(k + 1)) } else { seq![] };
            assert(rest_s == rest);
            assert(s == v@.skip(start as int));
        }
        if !empty && !is_dot {
            rs.push((start, j));
            proof {
                assert(ps == ps.take(t) + (seq![v@.subrange(start as int, j as int)] + rest));
                assert(ps.take(t + 1) =~= ps.take(t).push(v@.subrange(start as int, j as int)));
                assert(ps =~= ps.take(t + 1) + rest);
                assert forall|i: int| 0 <= i < rs@.len() implies v@.subrange(rs@[i].0 as int, rs@[i].1 as int)
                    == (lead(v@) + ps.take(rs@.len() - lead_len))[i] by {
                    if i < old_rs.len() {
                        assert((lead(v@) + ps.take(t + 1))[i] == (lead(v@) + ps.take(t))[i]);
                    }
                }
            }
        } else {
            proof {
                assert(v@.subrange(start as int, j as int).len() == 0 || v@.subrange(start as int, j as int) == seq!['.']);
                assert(ps =~= ps.take(t) + rest);
            }
        }
        if j < n {
            start = j + 1;
        } else {
            proof {
                assert(v@.skip(n as int) =~= Seq::<char>::empty());
            }
            start = n;
        }
    }
    proof {
        assert(v@.skip(n as int) =~= Seq::<char>::empty());
        let ps = pieces(v@);
        assert(ps.take(rs@.len() - lead_len) =~= ps);
    }
    rs
}

} // verus!
