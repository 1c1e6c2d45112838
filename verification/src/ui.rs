//! What the terminal shows and how keys are read: the streaming filter that
//! hides reasoning spans, the summary lines, the answers that keys give, and
//! the editor command line.
use vstd::prelude::*;
use crate::text::{
    chars_of, string_of, find_char, find_in_range, push_range, push_all, push_str, push_decimal, blen,
    byte_len, dec, is_ws, is_whitespace, lines, line_ranges, ranges_match, has_char, lemma_find_char_props,
};
use crate::prompt::{
    think_tag, think_prefix, lemma_think_tag_len, lemma_tag_prefixes_held, tag_head, tag_tail, ci_at, thinking,
};
use crate::text::ascii_lower;

verus! {

/// What the user chose to do with a generated message.
#[derive(Debug, PartialEq, Eq, Clone, Copy)]
pub enum Action {
    Commit,
    Edit,
    Regenerate,
    Cancel,
}

/// A streamed provider response: `raw` is everything the model sent,
/// `displayed` is what the user actually saw (reasoning spans filtered).
pub struct StreamedMessage {
    pub raw: String,
    pub displayed: String,
}

// ---------------------------------------------------------------------------
// Streaming filter
// ---------------------------------------------------------------------------

/// A partial tag candidate this long in bytes, or longer, is shown as text.
pub const MAX_PENDING_TAG: usize = 64;

/// The state of the filter: nesting depth of reasoning spans, whether the
/// placeholder was already requested, and a held partial tag.
pub struct FilterView {
    pub depth: nat,
    pub emitted: bool,
    pub pending: Seq<char>,
}

/// Where a scan of the buffer stands.
pub struct FilterScan {
    pub depth: nat,
    pub emitted: bool,
    pub pending: Seq<char>,
    pub visible: Seq<char>,
    pub placeholder: bool,
}

/// The scan of `buf` from `i`: text outside reasoning spans is visible;
/// an opening tag at depth 0 requests the placeholder the first time; a
/// partial tag at the end (shorter than `MAX_PENDING_TAG` bytes) is held.
pub open spec fn filter_scan(buf: Seq<char>, i: nat, st: FilterScan) -> FilterScan
    decreases buf.len() - i,
{
    if i >= buf.len() {
        st
    } else {
        let pos = i + find_char(buf.skip(i as int), '<');
        if pos >= buf.len() {
            FilterScan {
                visible: if st.depth == 0 { st.visible + buf.skip(i as int) } else { st.visible },
                ..st
            }
        } else {
            let vis = if st.depth == 0 { st.visible + buf.subrange(i as int, pos as int) } else { st.visible };
            match think_tag(buf.skip(pos as int)) {
                Some((len, closing)) => if len == 0 {
                    st
                } else if closing {
                    filter_scan(buf, (pos + len) as nat, FilterScan {
                        depth: if st.depth > 0 { (st.depth - 1) as nat } else { 0 },
                        visible: vis,
                        ..st
                    })
                } else {
                    let first = st.depth == 0 && !st.emitted;
                    filter_scan(buf, (pos + len) as nat, FilterScan {
                        depth: st.depth + 1,
                        emitted: st.emitted || first,
                        placeholder: st.placeholder || first,
                        visible: vis,
                        ..st
                    })
                },
                None => if blen(buf.skip(pos as int)) < MAX_PENDING_TAG && think_prefix(buf.skip(pos as int)) {
                    FilterScan { pending: buf.skip(pos as int), visible: vis, ..st }
                } else {
                    filter_scan(buf, (pos + 1) as nat, FilterScan {
                        visible: if st.depth == 0 { vis.push('<') } else { vis },
                        ..st
                    })
                },
            }
        }
    }
}

/// Feeding `chunk` to a filter in state `f`: the held text and the chunk
/// are scanned together.
pub open spec fn filter_push(f: FilterView, chunk: Seq<char>) -> FilterScan {
    filter_scan(f.pending + chunk, 0, FilterScan {
        depth: f.depth,
        emitted: f.emitted,
        pending: seq![],
        visible: seq![],
        placeholder: false,
    })
}

/// Stateful display filter that hides `<think>...</think>` spans in a
/// token stream. Tags split across chunks are held until enough text
/// arrives to decide.
pub struct ThinkFilter {
    depth: usize,
    placeholder_emitted: bool,
    pending: Vec<char>,
}

impl View for ThinkFilter {
    type V = FilterView;

    closed spec fn view(&self) -> FilterView {
        FilterView { depth: self.depth as nat, emitted: self.placeholder_emitted, pending: self.pending@ }
    }
}

impl ThinkFilter {
    /// A filter outside any span, with nothing held.
    pub fn new() -> (f: ThinkFilter)
        ensures
            f@ == (FilterView { depth: 0, emitted: false, pending: seq![] }),
    {
        ThinkFilter { depth: 0, placeholder_emitted: false, pending: Vec::new() }
    }

    /// Can `chunk` be fed without the nesting depth outgrowing `usize`?
    pub fn has_room_for(&self, chunk: &str) -> (b: bool)
        ensures
            b == (self@.depth + self@.pending.len() + chunk@.len() <= usize::MAX),
    {
        let n = chars_of(chunk).len();
        (self.depth as u128) + (self.pending.len() as u128) + (n as u128) <= usize::MAX as u128
    }

    /// Feed a chunk; returns the visible text, and whether suppression just
    /// started for the first time (the caller may show a placeholder).
    pub fn push(&mut self, chunk: &str) -> (r: (String, bool))
        requires
            old(self)@.depth + old(self)@.pending.len() + chunk@.len() <= usize::MAX,
        ensures
            r.0@ == filter_push(old(self)@, chunk@).visible,
            r.1 == filter_push(old(self)@, chunk@).placeholder,
            final(self)@.depth == filter_push(old(self)@, chunk@).depth,
            final(self)@.emitted == filter_push(old(self)@, chunk@).emitted,
            final(self)@.pending == filter_push(old(self)@, chunk@).pending,
    {
        let mut buf: Vec<char> = Vec::new();
        push_all(&mut buf, &self.pending);
        push_str(&mut buf, chunk);
        assert(buf@ =~= old(self)@.pending + chunk@);
        let ghost start = FilterScan {
            depth: self.depth as nat,
            emitted: self.placeholder_emitted,
            pending: seq![],
            visible: seq![],
            placeholder: false,
        };
        assert(filter_push(old(self)@, chunk@) == filter_scan(buf@, 0, start));
        self.pending = Vec::new();
        let n = buf.len();
        let mut visible: Vec<char> = Vec::new();
        let mut placeholder = false;
        let mut i: usize = 0;
        while i < n
            invariant
                n == buf@.len(),
                i <= n,
                self.depth + (n - i) <= usize::MAX,
                self.pending@.len() == 0,
                filter_push(old(self)@, chunk@) == filter_scan(buf@, 0, start),
                filter_scan(buf@, 0, start) == filter_scan(buf@, i as nat, FilterScan {
                    depth: self.depth as nat,
                    emitted: self.placeholder_emitted,
                    pending: seq![],
                    visible: visible@,
                    placeholder: placeholder,
                }),
            decreases n - i,
        {
            let pos = find_in_range(&buf, i, n, '<');
            proof {
                assert(buf@.skip(i as int) =~= buf@.subrange(i as int, n as int));
            }
            if pos >= n {
                if self.depth == 0 {
                    push_range(&mut visible, &buf, i, n);
                }
                proof {
                    let fin = FilterScan {
                        depth: self.depth as nat,
                        emitted: self.placeholder_emitted,
                        pending: seq![],
                        visible: visible@,
                        placeholder: placeholder,
                    };
                    assert(filter_scan(buf@, n as nat, fin) == fin);
                }
                i = n;
                continue;
            }
            if self.depth == 0 {
                push_range(&mut visible, &buf, i, pos);
            }
            match crate::prompt::tag_at(&buf, pos) {
                Some((len, closing)) => {
                    proof {
                        lemma_think_tag_len(buf@.skip(pos as int));
                    }
                    if closing {
                        if self.depth > 0 {
                            self.depth = self.depth - 1;
                        }
                    } else {
                        if self.depth == 0 && !self.placeholder_emitted {
                            placeholder = true;
                            self.placeholder_emitted = true;
                        }
                        self.depth = self.depth + 1;
                    }
                    i = pos + len;
                },
                None => {
                    let rest_bytes = byte_len(&buf, pos, n);
                    let mut rest: Vec<char> = Vec::new();
                    push_range(&mut rest, &buf, pos, n);
                    proof {
                        assert(rest@ =~= buf@.skip(pos as int));
                        assert(buf@.subrange(pos as int, n as int) =~= buf@.skip(pos as int));
                    }
                    if rest_bytes < MAX_PENDING_TAG as u128 && crate::prompt::could_be_think_tag_prefix(string_of(&rest).as_str()) {
                        self.pending = rest;
                        let ghost fin = FilterScan {
                            depth: self.depth as nat,
                            emitted: self.placeholder_emitted,
                            pending: self.pending@,
                            visible: visible@,
                            placeholder: placeholder,
                        };
                        assert(filter_scan(buf@, 0, start) == fin);
                        return (string_of(&visible), placeholder);
                    }
                    if self.depth == 0 {
                        visible.push('<');
                    }
                    i = pos + 1;
                },
            }
        }
        proof {
            let fin = FilterScan {
                depth: self.depth as nat,
                emitted: self.placeholder_emitted,
                pending: seq![],
                visible: visible@,
                placeholder: placeholder,
            };
            assert(filter_scan(buf@, i as nat, fin) == fin);
        }
        (string_of(&visible), placeholder)
    }

    /// The stream ended: a held partial tag is literal text, unless it sits
    /// inside a reasoning span.
    pub fn flush(&mut self) -> (r: String)
        ensures
            r@ == (if old(self)@.depth == 0 { old(self)@.pending } else { Seq::<char>::empty() }),
            final(self)@.depth == old(self)@.depth,
            final(self)@.emitted == old(self)@.emitted,
            final(self)@.pending.len() == 0,
    {
        let mut pending: Vec<char> = Vec::new();
        std::mem::swap(&mut pending, &mut self.pending);
        if self.depth == 0 {
            string_of(&pending)
        } else {
            String::new()
        }
    }
}


/// The scan keeps the placeholder flags consistent.
proof fn lemma_scan_emitted(buf: Seq<char>, i: nat, st: FilterScan)
    ensures
        st.emitted ==> filter_scan(buf, i, st).emitted && filter_scan(buf, i, st).placeholder == st.placeholder,
        filter_scan(buf, i, st).placeholder ==> st.placeholder || filter_scan(buf, i, st).emitted,
    decreases buf.len() - i,
{
    if i < buf.len() {
        let pos = i + find_char(buf.skip(i as int), '<');
        if pos < buf.len() {
            let vis = if st.depth == 0 { st.visible + buf.subrange(i as int, pos as int) } else { st.visible };
            match think_tag(buf.skip(pos as int)) {
                Some((len, closing)) => if len > 0 {
                    if closing {
                        lemma_scan_emitted(buf, (pos + len) as nat, FilterScan {
                            depth: if st.depth > 0 { (st.depth - 1) as nat } else { 0 },
                            visible: vis,
                            ..st
                        });
                    } else {
                        let first = st.depth == 0 && !st.emitted;
                        lemma_scan_emitted(buf, (pos + len) as nat, FilterScan {
                            depth: st.depth + 1,
                            emitted: st.emitted || first,
                            placeholder: st.placeholder || first,
                            visible: vis,
                            ..st
                        });
                    }
                },
                None => if !(blen(buf.skip(pos as int)) < MAX_PENDING_TAG && think_prefix(buf.skip(pos as int))) {
                    lemma_scan_emitted(buf, (pos + 1) as nat, FilterScan {
                        visible: if st.depth == 0 { vis.push('<') } else { vis },
                        ..st
                    });
                },
            }
        }
    }
}

/// The placeholder is requested at most once per stream: a filter that has
/// requested it never requests it again, and a request marks it as made.
pub proof fn lemma_placeholder_once(f: FilterView, chunk: Seq<char>)
    ensures
        f.emitted ==> !filter_push(f, chunk).placeholder && filter_push(f, chunk).emitted,
        filter_push(f, chunk).placeholder ==> filter_push(f, chunk).emitted,
{
    lemma_scan_emitted(f.pending + chunk, 0, FilterScan {
        depth: f.depth,
        emitted: f.emitted,
        pending: seq![],
        visible: seq![],
        placeholder: false,
    });
}

/// Outside any reasoning span and with nothing held, text without `<` is
/// shown exactly as it came.
pub proof fn lemma_plain_text_shown(f: FilterView, chunk: Seq<char>)
    requires
        f.depth == 0,
        f.pending.len() == 0,
        !has_char(chunk, '<'),
    ensures
        filter_push(f, chunk).visible == chunk,
        !filter_push(f, chunk).placeholder,
        filter_push(f, chunk).depth == 0,
        filter_push(f, chunk).pending.len() == 0,
{
    let buf = f.pending + chunk;
    assert(buf =~= chunk);
    let st = FilterScan { depth: 0, emitted: f.emitted, pending: seq![], visible: seq![], placeholder: false };
    if buf.len() > 0 {
        assert(buf.skip(0) =~= buf);
        lemma_find_char_props(buf, '<');
        if find_char(buf, '<') < buf.len() {
            assert(buf[find_char(buf, '<') as int] == '<');
        }
        assert(Seq::<char>::empty() + buf.skip(0) =~= chunk);
    }
}

// ---------------------------------------------------------------------------
// Chunking does not change what the filter shows

/// A think tag is decided by its own characters: a prefix of `u` that holds
/// the whole tag starts with the same tag, and a tag at the start of a
/// prefix of `u` is the tag `u` starts with.
proof fn lemma_tag_in_prefix(u: Seq<char>, k: int)
    requires
        0 <= k <= u.len(),
    ensures
        (think_tag(u) matches Some((n, c)) && n <= k) ==> think_tag(u.take(k)) == think_tag(u),
        think_tag(u.take(k)) is Some ==> think_tag(u) == think_tag(u.take(k)),
{
    let p = u.take(k);
    lemma_think_tag_len(u);
    lemma_think_tag_len(p);
    assert forall|i: int, w: Seq<char>| #[trigger] ci_at(p, i, w) implies ci_at(u, i, w) by {
        assert(p.subrange(i, i + w.len()) =~= u.subrange(i, i + w.len()));
    }
    assert forall|i: int, w: Seq<char>| #[trigger] ci_at(u, i, w) && i + w.len() <= k implies ci_at(p, i, w) by {
        assert(p.subrange(i, i + w.len()) =~= u.subrange(i, i + w.len()));
    }
    if think_tag(u) matches Some((n, c)) && n <= k {
        let (j, c0) = tag_head(u).unwrap();
        assert(p[1] == u[1]);
        if u[j as int] != '>' {
            let ru = u.skip(j as int);
            let rp = p.skip(j as int);
            assert(rp =~= ru.take(k - j));
            lemma_find_char_props(ru, '>');
            let gt = find_char(ru, '>') as int;
            assert forall|t: int| 0 <= t < gt implies rp[t] != '>' by {
                assert(rp[t] == ru[t]);
            }
            assert(rp[gt] == ru[gt]);
            crate::text::lemma_find_char(rp, '>', gt);
            assert(rp.take(gt) =~= ru.take(gt));
        }
        assert(tag_head(p) == tag_head(u));
    }
    if think_tag(p) is Some {
        let (j, c0) = tag_head(p).unwrap();
        assert(p[1] == u[1]);
        let i: int = if c0 { 2 } else { 1 };
        if ci_at(u, i, thinking()) && !ci_at(p, i, thinking()) {
            assert(ascii_lower(u.subrange(i, i + 8)[5]) == thinking()[5]);
            assert(u.subrange(i, i + 8)[5] == p[j as int]);
        }
        assert(tag_head(p) == tag_head(u));
        if p[j as int] != '>' {
            let ru = u.skip(j as int);
            let rp = p.skip(j as int);
            assert(rp =~= ru.take(k - j));
            lemma_find_char_props(rp, '>');
            let gt = find_char(rp, '>') as int;
            assert forall|t: int| 0 <= t < gt implies ru[t] != '>' by {
                assert(rp[t] == ru[t]);
            }
            assert(rp[gt] == ru[gt]);
            crate::text::lemma_find_char(ru, '>', gt);
            assert(rp.take(gt) =~= ru.take(gt));
        }
    }
}

/// A prefix (of one character or more) of text that could still grow into
/// a think tag could too.
proof fn lemma_candidate_prefix(u: Seq<char>, k: int)
    requires
        1 <= k <= u.len(),
        think_prefix(u),
    ensures
        think_prefix(u.take(k)),
{
    let p = u.take(k);
    assert(!has_char(p, '>')) by {
        if has_char(p, '>') {
            let t = choose|t: int| 0 <= t < p.len() && p[t] == '>';
            assert(u[t] == '>');
        }
    }
    if k == 1 {
        assert(p.skip(1).take(0) =~= crate::prompt::think().take(0));
    } else {
        assert(p[1] == u[1]);
        let m: int = if u[1] == '/' { 2 } else { 1 };
        let ru = u.skip(m);
        let rp = p.skip(m);
        assert(rp =~= ru.take(k - m));
        let hu = crate::prompt::min_len(ru.len(), 5) as int;
        let hp = crate::prompt::min_len(rp.len(), 5) as int;
        assert forall|t: int| 0 <= t < hp implies ascii_lower(#[trigger] rp.take(hp)[t])
            == crate::prompt::think().take(hp)[t] by {
            assert(rp.take(hp)[t] == ru.take(hu)[t]);
        }
        if rp.len() > 5 {
            let tu = ru.skip(5);
            let tp = rp.skip(5);
            assert(tp[0] == tu[0]);
            if !crate::prompt::is_ascii_ws(tp[0]) {
                let iu = crate::prompt::min_len(tu.len(), 3) as int;
                let ip = crate::prompt::min_len(tp.len(), 3) as int;
                assert forall|t: int| 0 <= t < ip implies ascii_lower(#[trigger] tp.take(ip)[t])
                    == crate::prompt::ing().take(ip)[t] by {
                    assert(tp.take(ip)[t] == tu.take(iu)[t]);
                }
                if tp.len() > 3 {
                    assert(tp[3] == tu[3]);
                }
            }
        }
    }
}

/// Scanning `pre + y` from inside `y` is scanning `y`.
proof fn lemma_scan_drop(pre: Seq<char>, y: Seq<char>, j: nat, st: FilterScan)
    ensures
        filter_scan(pre + y, (pre.len() + j) as nat, st) == filter_scan(y, j, st),
    decreases y.len() - j,
{
    let z = pre + y;
    let i2 = (pre.len() + j) as nat;
    if j < y.len() {
        assert(z.skip(i2 as int) =~= y.skip(j as int));
        lemma_find_char_props(y.skip(j as int), '<');
        let pos = j + find_char(y.skip(j as int), '<');
        if pos < y.len() {
            assert(z.subrange(i2 as int, (pre.len() + pos) as int) =~= y.subrange(j as int, pos as int));
            assert(z.skip((pre.len() + pos) as int) =~= y.skip(pos as int));
            lemma_think_tag_len(y.skip(pos as int));
            let vis = if st.depth == 0 { st.visible + y.subrange(j as int, pos as int) } else { st.visible };
            match think_tag(y.skip(pos as int)) {
                Some((len, closing)) => if len > 0 {
                    if closing {
                        lemma_scan_drop(pre, y, (pos + len) as nat, FilterScan {
                            depth: if st.depth > 0 { (st.depth - 1) as nat } else { 0 },
                            visible: vis,
                            ..st
                        });
                    } else {
                        let first = st.depth == 0 && !st.emitted;
                        lemma_scan_drop(pre, y, (pos + len) as nat, FilterScan {
                            depth: st.depth + 1,
                            emitted: st.emitted || first,
                            placeholder: st.placeholder || first,
                            visible: vis,
                            ..st
                        });
                    }
                },
                None => if !(blen(y.skip(pos as int)) < MAX_PENDING_TAG && think_prefix(y.skip(pos as int))) {
                    lemma_scan_drop(pre, y, (pos + 1) as nat, FilterScan {
                        visible: if st.depth == 0 { vis.push('<') } else { vis },
                        ..st
                    });
                },
            }
        }
    }
}

/// The state a scan reaches after passing over `buf[i..k]`, which holds no
/// `<`: that text is visible outside a reasoning span.
pub open spec fn passed(buf: Seq<char>, i: nat, k: nat, st: FilterScan) -> FilterScan {
    FilterScan {
        visible: if st.depth == 0 { st.visible + buf.subrange(i as int, k as int) } else { st.visible },
        ..st
    }
}

/// A scan passes over text without `<` in one go.
proof fn lemma_scan_jump(buf: Seq<char>, i: nat, k: nat, st: FilterScan)
    requires
        i <= k <= buf.len(),
        forall|t: int| i <= t < k ==> buf[t] != '<',
    ensures
        filter_scan(buf, i, st) == filter_scan(buf, k, passed(buf, i, k, st)),
{
    let st2 = passed(buf, i, k, st);
    if i == buf.len() {
        assert(st.visible + buf.subrange(i as int, k as int) =~= st.visible);
        assert(st2 == st);
    } else {
        lemma_find_char_props(buf.skip(i as int), '<');
        let q: int = if k < buf.len() {
            lemma_find_char_props(buf.skip(k as int), '<');
            (k + find_char(buf.skip(k as int), '<')) as int
        } else {
            buf.len() as int
        };
        assert forall|t: int| 0 <= t < q - i implies buf.skip(i as int)[t] != '<' by {
            if i + t >= k {
                assert(buf.skip(k as int)[i + t - k] == buf[i + t]);
            }
        }
        if q < buf.len() {
            assert(buf.skip(k as int)[q - k] == buf[q]);
        }
        crate::text::lemma_find_char(buf.skip(i as int), '<', q - i);
        if q >= buf.len() {
            assert(st.visible + buf.skip(i as int) =~= st.visible + buf.subrange(i as int, k as int) + buf.skip(
                k as int,
            ));
            if k == buf.len() {
                assert(buf.skip(i as int) =~= buf.subrange(i as int, k as int));
            }
        } else {
            assert(st.visible + buf.subrange(i as int, q) =~= st.visible + buf.subrange(i as int, k as int)
                + buf.subrange(k as int, q));
        }
    }
}

/// A scan state with nothing shown and no placeholder requested yet.
pub open spec fn cleared(st: FilterScan) -> FilterScan {
    FilterScan { visible: seq![], placeholder: false, ..st }
}

/// A scan adds to what was already shown and requested.
proof fn lemma_scan_accumulates(buf: Seq<char>, i: nat, st: FilterScan)
    ensures
        ({
            let r = filter_scan(buf, i, cleared(st));
            filter_scan(buf, i, st) == FilterScan {
                visible: st.visible + r.visible,
                placeholder: st.placeholder || r.placeholder,
                ..r
            }
        }),
    decreases buf.len() - i,
{
    let c = cleared(st);
    if i >= buf.len() {
        assert(st.visible + seq![] =~= st.visible);
    } else {
        lemma_find_char_props(buf.skip(i as int), '<');
        let pos = i + find_char(buf.skip(i as int), '<');
        if pos >= buf.len() {
            assert(st.visible + (seq![] + buf.skip(i as int)) =~= st.visible + buf.skip(i as int));
            assert(st.visible + seq![] =~= st.visible);
        } else {
            lemma_think_tag_len(buf.skip(pos as int));
            let sub = buf.subrange(i as int, pos as int);
            let vis = if st.depth == 0 { st.visible + sub } else { st.visible };
            let vc = if st.depth == 0 { seq![] + sub } else { seq![] };
            assert(vis =~= st.visible + vc);
            match think_tag(buf.skip(pos as int)) {
                Some((len, closing)) => if len > 0 {
                    let d = if closing { if st.depth > 0 { (st.depth - 1) as nat } else { 0 } } else { st.depth + 1 };
                    let first = !closing && st.depth == 0 && !st.emitted;
                    let n = FilterScan {
                        depth: d,
                        emitted: st.emitted || first,
                        placeholder: st.placeholder || first,
                        visible: vis,
                        ..st
                    };
                    let m = FilterScan {
                        depth: d,
                        emitted: st.emitted || first,
                        placeholder: first,
                        visible: vc,
                        ..st
                    };
                    assert(cleared(n) == cleared(m));
                    lemma_scan_accumulates(buf, (pos + len) as nat, n);
                    lemma_scan_accumulates(buf, (pos + len) as nat, m);
                    let rr = filter_scan(buf, (pos + len) as nat, cleared(n));
                    assert(st.visible + (vc + rr.visible) =~= vis + rr.visible);
                    if closing {
                        assert(filter_scan(buf, i, c) == filter_scan(buf, (pos + len) as nat, m));
                        assert(filter_scan(buf, i, st) == filter_scan(buf, (pos + len) as nat, n));
                    } else {
                        assert(filter_scan(buf, i, c) == filter_scan(buf, (pos + len) as nat, m));
                        assert(filter_scan(buf, i, st) == filter_scan(buf, (pos + len) as nat, n));
                    }
                },
                None => if blen(buf.skip(pos as int)) < MAX_PENDING_TAG && think_prefix(buf.skip(pos as int)) {
                } else {
                    let n = FilterScan { visible: if st.depth == 0 { vis.push('<') } else { vis }, ..st };
                    let m = FilterScan { visible: if st.depth == 0 { vc.push('<') } else { vc }, ..c };
                    assert(n.visible =~= st.visible + m.visible);
                    assert(cleared(n) == cleared(m));
                    lemma_scan_accumulates(buf, (pos + 1) as nat, n);
                    lemma_scan_accumulates(buf, (pos + 1) as nat, m);
                    let rr = filter_scan(buf, (pos + 1) as nat, cleared(n));
                    assert(st.visible + (m.visible + rr.visible) =~= n.visible + rr.visible);
                },
            }
        }
    }
}

/// No `<` in `x` begins a partial tag, running to the end of `x`, of
/// `MAX_PENDING_TAG` bytes or more (such a candidate is shown as text, so a
/// tag it would have become once more text arrived is not recognised).
pub open spec fn no_long_partial_tag(x: Seq<char>) -> bool {
    forall|p: int| 0 <= p < x.len() && think_prefix(#[trigger] x.skip(p)) ==> blen(x.skip(p)) < MAX_PENDING_TAG
}

/// Scanning `x + b` is scanning `x`, then the held text followed by `b`.
proof fn lemma_scan_append(x: Seq<char>, b: Seq<char>, i: nat, st: FilterScan)
    requires
        i <= x.len(),
        st.pending == Seq::<char>::empty(),
        no_long_partial_tag(x),
    ensures
        ({
            let r = filter_scan(x, i, st);
            filter_scan(x + b, i, st) == filter_scan(r.pending + b, 0, FilterScan { pending: seq![], ..r })
        }),
    decreases x.len() - i, 1nat,
{
    let xb = x + b;
    if i == x.len() {
        lemma_scan_drop(x, b, 0, st);
        assert(st.pending + b =~= b);
        assert(FilterScan { pending: seq![], ..st } == st);
    } else {
        lemma_find_char_props(x.skip(i as int), '<');
        let pos = i + find_char(x.skip(i as int), '<');
        assert forall|t: int| i <= t < pos implies xb[t] != '<' && x[t] != '<' by {
            assert(x.skip(i as int)[t - i] == x[t]);
        }
        if pos >= x.len() {
            lemma_scan_jump(xb, i, x.len() as nat, st);
            assert(xb.subrange(i as int, x.len() as int) =~= x.skip(i as int));
            let sv = passed(xb, i, x.len() as nat, st);
            lemma_scan_drop(x, b, 0, sv);
            assert(sv.pending + b =~= b);
            assert(FilterScan { pending: seq![], ..sv } == sv);
        } else {
            assert(x.skip(i as int)[pos - i] == x[pos as int]);
            lemma_scan_jump(xb, i, pos, st);
            lemma_scan_jump(x, i, pos, st);
            assert(xb.subrange(i as int, pos as int) =~= x.subrange(i as int, pos as int));
            assert(passed(xb, i, pos, st) == passed(x, i, pos, st));
            lemma_scan_append_at(x, b, pos, passed(x, i, pos, st));
        }
    }
}

/// `lemma_scan_append` at a `<` of `x`.
#[verifier::rlimit(40)]
proof fn lemma_scan_append_at(x: Seq<char>, b: Seq<char>, pos: nat, sv: FilterScan)
    requires
        pos < x.len(),
        x[pos as int] == '<',
        sv.pending == Seq::<char>::empty(),
        no_long_partial_tag(x),
    ensures
        ({
            let r = filter_scan(x, pos, sv);
            filter_scan(x + b, pos, sv) == filter_scan(r.pending + b, 0, FilterScan { pending: seq![], ..r })
        }),
    decreases x.len() - pos, 0nat,
{
    let xb = x + b;
    let sx = x.skip(pos as int);
    let sb = xb.skip(pos as int);
    assert(sb =~= sx + b);
    assert(sb.take(sx.len() as int) =~= sx);
    crate::text::lemma_find_char(sx, '<', 0);
    crate::text::lemma_find_char(sb, '<', 0);
    assert(x.subrange(pos as int, pos as int) =~= Seq::<char>::empty());
    assert(xb.subrange(pos as int, pos as int) =~= Seq::<char>::empty());
    assert(sv.visible + Seq::<char>::empty() =~= sv.visible);
    lemma_think_tag_len(sx);
    lemma_tag_in_prefix(sb, sx.len() as int);
    match think_tag(sx) {
        Some((len, closing)) => {
            let n = if closing {
                FilterScan { depth: if sv.depth > 0 { (sv.depth - 1) as nat } else { 0 }, ..sv }
            } else {
                let first = sv.depth == 0 && !sv.emitted;
                FilterScan {
                    depth: sv.depth + 1,
                    emitted: sv.emitted || first,
                    placeholder: sv.placeholder || first,
                    ..sv
                }
            };
            assert(filter_scan(x, pos, sv) == filter_scan(x, (pos + len) as nat, n));
            assert(filter_scan(xb, pos, sv) == filter_scan(xb, (pos + len) as nat, n));
            lemma_scan_append(x, b, (pos + len) as nat, n);
        },
        None => if blen(sx) < MAX_PENDING_TAG && think_prefix(sx) {
            assert(xb =~= x.take(pos as int) + sb);
            lemma_scan_drop(x.take(pos as int), sb, 0, sv);
            assert(FilterScan { pending: seq![], ..FilterScan { pending: sx, ..sv } } == sv);
        } else {
            assert(!think_prefix(sx));
            if let Some((m, c)) = think_tag(sb) {
                if m > sx.len() {
                    lemma_tag_prefixes_held(sb, sx.len() as int);
                }
            }
            if think_prefix(sb) {
                lemma_candidate_prefix(sb, sx.len() as int);
            }
            let n = FilterScan { visible: if sv.depth == 0 { sv.visible.push('<') } else { sv.visible }, ..sv };
            assert(filter_scan(x, pos, sv) == filter_scan(x, (pos + 1) as nat, n));
            assert(filter_scan(xb, pos, sv) == filter_scan(xb, (pos + 1) as nat, n));
            lemma_scan_append(x, b, (pos + 1) as nat, n);
        },
    }
}

/// How text is cut into chunks does not change what the filter shows:
/// feeding `a` and then `b` shows what feeding `a + b` at once shows,
/// requests the placeholder as often, and leaves the filter in the same
/// state. This holds unless `a` (after what the filter already holds) ends
/// in a partial tag of `MAX_PENDING_TAG` bytes or more.
pub proof fn lemma_filter_chunking(f: FilterView, a: Seq<char>, b: Seq<char>)
    requires
        no_long_partial_tag(f.pending + a),
    ensures
        ({
            let one = filter_push(f, a);
            let two = filter_push(FilterView { depth: one.depth, emitted: one.emitted, pending: one.pending }, b);
            let both = filter_push(f, a + b);
            &&& both.visible == one.visible + two.visible
            &&& both.placeholder == (one.placeholder || two.placeholder)
            &&& both.depth == two.depth
            &&& both.emitted == two.emitted
            &&& both.pending == two.pending
        }),
{
    let x = f.pending + a;
    let st0 = FilterScan { depth: f.depth, emitted: f.emitted, pending: seq![], visible: seq![], placeholder: false };
    assert(f.pending + (a + b) =~= x + b);
    lemma_scan_append(x, b, 0, st0);
    let one = filter_scan(x, 0, st0);
    let mid = FilterScan { pending: seq![], ..one };
    lemma_scan_accumulates(one.pending + b, 0, mid);
}

/// What `flush` releases from a filter at this depth holding `pending`.
pub open spec fn flushed(depth: nat, pending: Seq<char>) -> Seq<char> {
    if depth == 0 { pending } else { seq![] }
}

/// Feeding `chunks` one after the other to a filter in state `f`: the text
/// shown (concatenated), whether the placeholder was requested by any push,
/// and the state reached.
pub open spec fn feed_all(f: FilterView, chunks: Seq<Seq<char>>) -> FilterScan
    decreases chunks.len(),
{
    if chunks.len() == 0 {
        FilterScan { depth: f.depth, emitted: f.emitted, pending: f.pending, visible: seq![], placeholder: false }
    } else {
        let prev = feed_all(f, chunks.drop_last());
        let step = filter_push(
            FilterView { depth: prev.depth, emitted: prev.emitted, pending: prev.pending },
            chunks.last(),
        );
        FilterScan {
            visible: prev.visible + step.visible,
            placeholder: prev.placeholder || step.placeholder,
            ..step
        }
    }
}

/// How a stream is cut into chunks does not change what the filter shows:
/// feeding the chunks one by one and then flushing shows what feeding
/// their concatenation at once and flushing shows, the placeholder is
/// requested by some push exactly when the single push requests it, and the
/// filter ends in the same state. This holds unless some cut between chunks
/// falls right after a partial tag of `MAX_PENDING_TAG` bytes or more.
pub proof fn lemma_filter_chunks(f: FilterView, chunks: Seq<Seq<char>>)
    requires
        chunks.len() > 0,
        forall|k: int| 1 <= k < chunks.len() ==> no_long_partial_tag(f.pending + (#[trigger] chunks.take(k)).flatten()),
    ensures
        ({
            let split = feed_all(f, chunks);
            let whole = filter_push(f, chunks.flatten());
            &&& split.visible == whole.visible
            &&& split.visible + flushed(split.depth, split.pending) == whole.visible + flushed(whole.depth, whole.pending)
            &&& split.placeholder == whole.placeholder
            &&& split.depth == whole.depth
            &&& split.emitted == whole.emitted
            &&& split.pending == whole.pending
        }),
    decreases chunks.len(),
{
    let init = chunks.drop_last();
    let last = chunks.last();
    assert(chunks =~= init.push(last));
    init.lemma_flatten_push(last);
    if chunks.len() == 1 {
        assert(init.flatten() =~= Seq::<char>::empty());
        assert(chunks.flatten() =~= last);
        assert(feed_all(f, init).visible + filter_push(f, last).visible =~= filter_push(f, last).visible);
    } else {
        assert forall|k: int| 1 <= k < init.len() implies no_long_partial_tag(
            f.pending + (#[trigger] init.take(k)).flatten(),
        ) by {
            assert(init.take(k) =~= chunks.take(k));
        }
        lemma_filter_chunks(f, init);
        assert(chunks.take(init.len() as int) =~= init);
        assert(no_long_partial_tag(f.pending + chunks.take(init.len() as int).flatten()));
        lemma_filter_chunking(f, init.flatten(), last);
    }
}

// ---------------------------------------------------------------------------
// Streaming a message
// ---------------------------------------------------------------------------

/// A response being streamed: everything received, what was shown, and the
/// filter between the two.
pub struct MessageStream {
    raw: Vec<char>,
    displayed: Vec<char>,
    filter: ThinkFilter,
    show_placeholder: bool,
}

/// The stream as plain values.
pub struct StreamView {
    pub raw: Seq<char>,
    pub displayed: Seq<char>,
    pub filter: FilterView,
    pub show_placeholder: bool,
}

impl View for MessageStream {
    type V = StreamView;

    closed spec fn view(&self) -> StreamView {
        StreamView {
            raw: self.raw@,
            displayed: self.displayed@,
            filter: self.filter@,
            show_placeholder: self.show_placeholder,
        }
    }
}

impl MessageStream {
    /// A stream with nothing received; `show_placeholder` says whether the
    /// thinking placeholder may be shown.
    pub fn new(show_placeholder: bool) -> (m: MessageStream)
        ensures
            m@.raw.len() == 0,
            m@.displayed.len() == 0,
            m@.filter == (FilterView { depth: 0, emitted: false, pending: seq![] }),
            m@.show_placeholder == show_placeholder,
    {
        MessageStream { raw: Vec::new(), displayed: Vec::new(), filter: ThinkFilter::new(), show_placeholder }
    }

    /// Can `token` be fed without the filter's nesting depth outgrowing `usize`?
    pub fn has_room_for(&self, token: &str) -> (b: bool)
        ensures
            b == (self@.filter.depth + self@.filter.pending.len() + token@.len() <= usize::MAX),
    {
        self.filter.has_room_for(token)
    }

    /// One token arrived: it is kept whole, and what the filter lets through
    /// is returned to be printed and added to what was shown, with whether
    /// to print the thinking placeholder now.
    pub fn feed(&mut self, token: &str) -> (r: (String, bool))
        requires
            old(self)@.filter.depth + old(self)@.filter.pending.len() + token@.len() <= usize::MAX,
        ensures
            ({
                let out = filter_push(old(self)@.filter, token@);
                &&& r.0@ == out.visible
                &&& r.1 == (out.placeholder && old(self)@.show_placeholder)
                &&& final(self)@.raw == old(self)@.raw + token@
                &&& final(self)@.displayed == old(self)@.displayed + out.visible
                &&& final(self)@.filter.depth == out.depth
                &&& final(self)@.filter.emitted == out.emitted
                &&& final(self)@.filter.pending == out.pending
                &&& final(self)@.show_placeholder == old(self)@.show_placeholder
            }),
    {
        push_str(&mut self.raw, token);
        let (visible, started) = self.filter.push(token);
        let vis = chars_of(visible.as_str());
        push_all(&mut self.displayed, &vis);
        (visible, started && self.show_placeholder)
    }

    /// The stream ended: the held text the filter releases (to be printed),
    /// and the message as received and as shown.
    pub fn finish(&mut self) -> (r: (String, StreamedMessage))
        ensures
            ({
                let f = old(self)@.filter;
                let tail = if f.depth == 0 { f.pending } else { Seq::<char>::empty() };
                &&& r.0@ == tail
                &&& r.1.raw@ == old(self)@.raw
                &&& r.1.displayed@ == old(self)@.displayed + tail
            }),
    {
        let tail = self.filter.flush();
        let tv = chars_of(tail.as_str());
        push_all(&mut self.displayed, &tv);
        let msg = StreamedMessage { raw: string_of(&self.raw), displayed: string_of(&self.displayed) };
        (tail, msg)
    }
}

// ---------------------------------------------------------------------------
// Printed lines
// ---------------------------------------------------------------------------

/// `file` or `files`.
pub open spec fn file_word(n: nat) -> Seq<char> {
    if n == 1 { "file"@ } else { "files"@ }
}

/// The staged-changes summary line.
pub open spec fn summary_text(files: nat, ins: nat, del: nat) -> Seq<char> {
    if ins > 0 || del > 0 {
        "  Staged: "@ + dec(files) + " "@ + file_word(files) + " (+"@ + dec(ins) + ", -"@ + dec(del) + ")"@
    } else {
        "  Staged: "@ + dec(files) + " "@ + file_word(files)
    }
}

/// The summary printed before generation: file count, and the insertions
/// and deletions when there are any.
pub fn summary_line(files: usize, insertions: usize, deletions: usize) -> (s: String)
    ensures
        s@ == summary_text(files as nat, insertions as nat, deletions as nat),
{
    let mut out = chars_of("  Staged: ");
    push_decimal(&mut out, files);
    push_str(&mut out, " ");
    if files == 1 {
        push_str(&mut out, "file");
    } else {
        push_str(&mut out, "files");
    }
    if insertions > 0 || deletions > 0 {
        push_str(&mut out, " (+");
        push_decimal(&mut out, insertions);
        push_str(&mut out, ", -");
        push_decimal(&mut out, deletions);
        push_str(&mut out, ")");
    }
    string_of(&out)
}

/// Each line indented by two spaces and ended by a newline.
pub open spec fn indent_lines(ls: Seq<Seq<char>>) -> Seq<char>
    decreases ls.len(),
{
    if ls.len() == 0 {
        seq![]
    } else {
        indent_lines(ls.drop_last()) + "  "@ + ls.last() + "\n"@
    }
}

/// What is printed for the changes about to be staged: nothing for an
/// empty stat, otherwise its lines indented, between blank lines.
pub open spec fn stat_block(stat: Seq<char>) -> Seq<char> {
    if stat.len() == 0 {
        seq![]
    } else {
        "\n"@ + indent_lines(lines(stat)) + "\n"@
    }
}

/// The text printed for the `--stat` of changes about to be staged.
pub fn unstaged_stat_block(stat: &str) -> (s: String)
    ensures
        s@ == stat_block(stat@),
{
    let v = chars_of(stat);
    if v.len() == 0 {
        return String::new();
    }
    let rs = line_ranges(&v);
    let ghost ls = lines(v@);
    let mut body: Vec<char> = Vec::new();
    let mut i: usize = 0;
    assert(ls.take(0) =~= Seq::<Seq<char>>::empty());
    while i < rs.len()
        invariant
            ranges_match(v@, rs@, ls),
            i <= rs@.len(),
            body@ == indent_lines(ls.take(i as int)),
        decreases rs@.len() - i,
    {
        let (lo, hi) = rs[i];
        push_str(&mut body, "  ");
        push_range(&mut body, &v, lo, hi);
        push_str(&mut body, "\n");
        proof {
            assert(ls.take(i + 1).drop_last() =~= ls.take(i as int));
            assert(ls.take(i + 1).last() == ls[i as int]);
        }
        i = i + 1;
    }
    assert(ls.take(i as int) =~= ls);
    let mut out = chars_of("\n");
    push_all(&mut out, &body);
    push_str(&mut out, "\n");
    string_of(&out)
}

// ---------------------------------------------------------------------------
// Keys
// ---------------------------------------------------------------------------

/// A key press, as far as the prompts care.
#[derive(Debug, Clone, Copy, PartialEq, Eq, Structural)]
pub enum Key {
    Char(char),
    Enter,
    Esc,
    Other,
}

/// The action a key chooses (`control` means Control alone is held):
/// Ctrl-C, `n` and Esc cancel, `y` and Enter commit, `e` edits, `r`
/// regenerates; other keys choose nothing.
pub open spec fn key_action(key: Key, control: bool) -> Option<Action> {
    match key {
        Key::Char(c) => if c == 'c' && control {
            Some(Action::Cancel)
        } else if c == 'y' {
            Some(Action::Commit)
        } else if c == 'e' {
            Some(Action::Edit)
        } else if c == 'r' {
            Some(Action::Regenerate)
        } else if c == 'n' {
            Some(Action::Cancel)
        } else {
            None
        },
        Key::Enter => Some(Action::Commit),
        Key::Esc => Some(Action::Cancel),
        Key::Other => None,
    }
}

/// The action chosen by a key at the `[y]es [e]dit [r]egenerate [n]o` prompt.
pub fn action_for_key(key: Key, control: bool) -> (r: Option<Action>)
    ensures
        r == key_action(key, control),
{
    match key {
        Key::Char(c) => {
            if c == 'c' && control {
                Some(Action::Cancel)
            } else if c == 'y' {
                Some(Action::Commit)
            } else if c == 'e' {
                Some(Action::Edit)
            } else if c == 'r' {
                Some(Action::Regenerate)
            } else if c == 'n' {
                Some(Action::Cancel)
            } else {
                None
            }
        },
        Key::Enter => Some(Action::Commit),
        Key::Esc => Some(Action::Cancel),
        Key::Other => None,
    }
}

/// The answer a key gives to a yes/no prompt: Ctrl-C, `n` and Esc say no,
/// `y` says yes, and Enter says `enter_means`.
pub open spec fn key_answer(key: Key, control: bool, enter_means: bool) -> Option<bool> {
    match key {
        Key::Char(c) => if c == 'c' && control {
            Some(false)
        } else if c == 'y' {
            Some(true)
        } else if c == 'n' {
            Some(false)
        } else {
            None
        },
        Key::Enter => Some(enter_means),
        Key::Esc => Some(false),
        Key::Other => None,
    }
}

fn answer_for_key(key: Key, control: bool, enter_means: bool) -> (r: Option<bool>)
    ensures
        r == key_answer(key, control, enter_means),
{
    match key {
        Key::Char(c) => {
            if c == 'c' && control {
                Some(false)
            } else if c == 'y' {
                Some(true)
            } else if c == 'n' {
                Some(false)
            } else {
                None
            }
        },
        Key::Enter => Some(enter_means),
        Key::Esc => Some(false),
        Key::Other => None,
    }
}

/// The answer a key gives to `Stage all changes? [y/n]` (Enter says yes).
pub fn stage_answer(key: Key, control: bool) -> (r: Option<bool>)
    ensures
        r == key_answer(key, control, true),
{
    answer_for_key(key, control, true)
}

/// The answer a key gives to `Push? [y/n]` (Enter says no).
pub fn push_answer(key: Key, control: bool) -> (r: Option<bool>)
    ensures
        r == key_answer(key, control, false),
{
    answer_for_key(key, control, false)
}

// ---------------------------------------------------------------------------
// Editor command
// ---------------------------------------------------------------------------

/// First index at or after `i` that is not whitespace (or the length).
pub open spec fn ws_end(s: Seq<char>, i: nat) -> nat
    decreases s.len() - i,
{
    if i < s.len() && is_ws(s[i as int]) { ws_end(s, i + 1) } else { i }
}

/// First index at or after `i` that is whitespace (or the length).
pub open spec fn word_end(s: Seq<char>, i: nat) -> nat
    decreases s.len() - i,
{
    if i < s.len() && !is_ws(s[i as int]) { word_end(s, i + 1) } else { i }
}

/// Where the whitespace run from `i` ends.
pub proof fn lemma_ws_end(s: Seq<char>, i: nat)
    ensures
        i <= ws_end(s, i),
        ws_end(s, i) < s.len() ==> !is_ws(s[ws_end(s, i) as int]),
        i <= s.len() ==> ws_end(s, i) <= s.len(),
    decreases s.len() - i,
{
    if i < s.len() && is_ws(s[i as int]) {
        lemma_ws_end(s, i + 1);
    }
}

/// Where the word from `i` ends.
pub proof fn lemma_word_end(s: Seq<char>, i: nat)
    ensures
        i <= word_end(s, i),
        i < s.len() && !is_ws(s[i as int]) ==> i < word_end(s, i),
        i <= s.len() ==> word_end(s, i) <= s.len(),
    decreases s.len() - i,
{
    if i < s.len() && !is_ws(s[i as int]) {
        lemma_word_end(s, i + 1);
    }
}

/// The whitespace-separated words of `s` from `i` on (`str::split_whitespace`).
pub open spec fn words_from(s: Seq<char>, i: nat) -> Seq<Seq<char>>
    decreases s.len() - i,
{
    let j = ws_end(s, i);
    if i >= s.len() || j >= s.len() {
        seq![]
    } else {
        proof {
            lemma_ws_end(s, i);
            lemma_word_end(s, j);
        }
        seq![s.subrange(j as int, word_end(s, j) as int)] + words_from(s, word_end(s, j))
    }
}

/// The whitespace-separated words of `s`.
fn split_words(s: &str) -> (r: Vec<String>)
    ensures
        crate::git::texts(r@) == words_from(s@, 0),
{
    let v = chars_of(s);
    let n = v.len();
    let ghost all = words_from(v@, 0);
    let mut words: Vec<String> = Vec::new();
    let mut i: usize = 0;
    assert(all =~= all.take(0) + words_from(v@, 0));
    while i < n
        invariant
            n == v@.len(),
            i <= n,
            all == words_from(v@, 0),
            crate::git::texts(words@) + words_from(v@, i as nat) == all,
        decreases n - i,
    {
        let mut j = i;
        while j < n && is_whitespace(v[j])
            invariant
                i <= j <= n,
                n == v@.len(),
                ws_end(v@, i as nat) == ws_end(v@, j as nat),
            decreases n - j,
        {
            j = j + 1;
        }
        if j >= n {
            proof {
                assert(words_from(v@, i as nat) =~= Seq::<Seq<char>>::empty());
                assert(words_from(v@, n as nat) =~= Seq::<Seq<char>>::empty());
            }
            i = n;
            continue;
        }
        let mut k = j;
        while k < n && !is_whitespace(v[k])
            invariant
                j <= k <= n,
                n == v@.len(),
                word_end(v@, j as nat) == word_end(v@, k as nat),
            decreases n - k,
        {
            k = k + 1;
        }
        let mut w: Vec<char> = Vec::new();
        push_range(&mut w, &v, j, k);
        let ghost before = crate::git::texts(words@);
        words.push(string_of(&w));
        proof {
            lemma_ws_end(v@, i as nat);
            lemma_word_end(v@, j as nat);
            assert(crate::git::texts(words@) =~= before.push(v@.subrange(j as int, k as int)));
            assert(words_from(v@, i as nat) == seq![v@.subrange(j as int, k as int)] + words_from(v@, k as nat));
            assert(crate::git::texts(words@) + words_from(v@, k as nat)
                =~= before + words_from(v@, i as nat));
        }
        i = k;
    }
    proof {
        assert(words_from(v@, n as nat) =~= Seq::<Seq<char>>::empty());
        assert(crate::git::texts(words@) =~= all);
    }
    words
}

/// The first word as the command, the others as its arguments; `default`
/// and no arguments when there is no word.
fn command_of(words: Vec<String>, default: &str) -> (r: (String, Vec<String>))
    ensures
        ({
            let ws = crate::git::texts(words@);
            &&& r.0@ == (if ws.len() > 0 { ws[0] } else { default@ })
            &&& crate::git::texts(r.1@) == (if ws.len() > 0 { ws.skip(1) } else { Seq::<Seq<char>>::empty() })
        }),
{
    let mut words = words;
    if words.len() == 0 {
        return (default.to_owned(), words);
    }
    let ghost before = crate::git::texts(words@);
    let cmd = words.remove(0);
    assert(crate::git::texts(words@) =~= before.skip(1));
    (cmd, words)
}

/// Split an editor setting into the command and its arguments (by
/// whitespace); `vi` when there is no word at all.
pub fn split_editor_command(editor: &str) -> (r: (String, Vec<String>))
    ensures
        ({
            let ws = words_from(editor@, 0);
            &&& r.0@ == (if ws.len() > 0 { ws[0] } else { "vi"@ })
            &&& crate::git::texts(r.1@) == (if ws.len() > 0 { ws.skip(1) } else { Seq::<Seq<char>>::empty() })
        }),
{
    command_of(split_words(editor), "vi")
}

/// The pager for the staged diff: `$PAGER` split at whitespace, `less -R`
/// when it is unset, and `less` with `-R` when it holds no word.
pub fn pager_command(pager: Option<String>) -> (r: (String, Vec<String>))
    ensures
        ({
            let p = match pager { Some(x) => x@, None => "less -R"@ };
            let ws = words_from(p, 0);
            &&& r.0@ == (if ws.len() > 0 { ws[0] } else { "less"@ })
            &&& crate::git::texts(r.1@) == (if ws.len() > 0 { ws.skip(1) } else { seq!["-R"@] })
        }),
{
    let p = match pager {
        Some(x) => x,
        None => string_of(&chars_of("less -R")),
    };
    let words = split_words(p.as_str());
    if words.len() == 0 {
        let mut args: Vec<String> = Vec::new();
        args.push(string_of(&chars_of("-R")));
        assert(crate::git::texts(args@) =~= seq!["-R"@]);
        return (string_of(&chars_of("less")), args);
    }
    command_of(words, "less")
}
} // verus!
