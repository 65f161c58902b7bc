//! Tab completion for the kernel shell's line editor: the word before the cursor is
//! completed against the shell's commands and the names of the files.
use vstd::prelude::*;
use crate::line_editor::{LineEditor, ScreenOp, puts, rep, deep, strictly_sorted, lex_order, insert_sorted};
use crate::line_editor::{lemma_order_eq0, lemma_order_range, same_line};
use crate::shell_text::{is_prefix, common_prefix_len, longest_common_prefix, deep_bytes};

verus! {

/// The names the shell knows as commands.
pub open spec fn command_names() -> Seq<Seq<u8>> {
    seq![
        seq![0x68u8, 0x65, 0x6c, 0x70], seq![0x65u8, 0x63, 0x68, 0x6f], seq![0x63u8, 0x6c, 0x65, 0x61, 0x72],
        seq![0x75u8, 0x6e, 0x61, 0x6d, 0x65], seq![0x77u8, 0x68, 0x6f, 0x61, 0x6d, 0x69],
        seq![0x64u8, 0x61, 0x74, 0x65], seq![0x79u8, 0x65, 0x73], seq![0x6cu8, 0x73], seq![0x63u8, 0x61, 0x74],
        seq![0x68u8, 0x65, 0x61, 0x64], seq![0x77u8, 0x63], seq![0x68u8, 0x65, 0x78, 0x64, 0x75, 0x6d, 0x70],
        seq![0x74u8, 0x72, 0x75, 0x65], seq![0x66u8, 0x61, 0x6c, 0x73, 0x65], seq![0x65u8, 0x78, 0x69, 0x74],
        seq![0x71u8, 0x75, 0x69, 0x74], seq![0x73u8, 0x68], seq![0x63u8, 0x70], seq![0x72u8, 0x6d],
        seq![0x65u8, 0x64, 0x69, 0x74], seq![0x74u8, 0x6f, 0x75, 0x63, 0x68],
    ]
}

/// The bytes of `s` as a vector.
fn bytes_of(s: &[u8]) -> (r: Vec<u8>)
    ensures
        r@ == s@,
{
    let mut r: Vec<u8> = Vec::new();
    let mut i: usize = 0;
    while i < s.len()
        invariant
            i <= s@.len(),
            r@ == s@.subrange(0, i as int),
        decreases s@.len() - i,
    {
        r.push(s[i]);
        assert(r@ =~= s@.subrange(0, i + 1));
        i = i + 1;
    }
    assert(s@.subrange(0, s@.len() as int) =~= s@);
    r
}

/// The command names, in the order of `command_names`.
pub fn command_list() -> (r: Vec<Vec<u8>>)
    ensures
        deep(r@) == command_names(),
{
    let mut r: Vec<Vec<u8>> = Vec::new();
    r.push(bytes_of(&[0x68u8, 0x65, 0x6c, 0x70]));
    r.push(bytes_of(&[0x65u8, 0x63, 0x68, 0x6f]));
    r.push(bytes_of(&[0x63u8, 0x6c, 0x65, 0x61, 0x72]));
    r.push(bytes_of(&[0x75u8, 0x6e, 0x61, 0x6d, 0x65]));
    r.push(bytes_of(&[0x77u8, 0x68, 0x6f, 0x61, 0x6d, 0x69]));
    r.push(bytes_of(&[0x64u8, 0x61, 0x74, 0x65]));
    r.push(bytes_of(&[0x79u8, 0x65, 0x73]));
    r.push(bytes_of(&[0x6cu8, 0x73]));
    r.push(bytes_of(&[0x63u8, 0x61, 0x74]));
    r.push(bytes_of(&[0x68u8, 0x65, 0x61, 0x64]));
    r.push(bytes_of(&[0x77u8, 0x63]));
    r.push(bytes_of(&[0x68u8, 0x65, 0x78, 0x64, 0x75, 0x6d, 0x70]));
    r.push(bytes_of(&[0x74u8, 0x72, 0x75, 0x65]));
    r.push(bytes_of(&[0x66u8, 0x61, 0x6c, 0x73, 0x65]));
    r.push(bytes_of(&[0x65u8, 0x78, 0x69, 0x74]));
    r.push(bytes_of(&[0x71u8, 0x75, 0x69, 0x74]));
    r.push(bytes_of(&[0x73u8, 0x68]));
    r.push(bytes_of(&[0x63u8, 0x70]));
    r.push(bytes_of(&[0x72u8, 0x6d]));
    r.push(bytes_of(&[0x65u8, 0x64, 0x69, 0x74]));
    r.push(bytes_of(&[0x74u8, 0x6f, 0x75, 0x63, 0x68]));
    assert(deep(r@) =~= command_names());
    r
}

/// Where the word that ends at `i` starts: after the last space or tab before `i`.
pub open spec fn word_start(buf: Seq<u8>, i: int) -> int
    decreases i,
{
    if i <= 0 { 0 } else if buf[i - 1] == 0x20 || buf[i - 1] == 9 { i } else { word_start(buf, i - 1) }
}

/// The candidates that begin with `prefix`, as a set.
pub open spec fn matching(cands: Seq<Seq<u8>>, prefix: Seq<u8>) -> Set<Seq<u8>> {
    cands.to_set().filter(|s: Seq<u8>| is_prefix(prefix, s))
}

/// The elements of `m` in byte-wise order (the strictly increasing sequence whose set is `m`).
pub open spec fn sorted_list(m: Set<Seq<u8>>) -> Seq<Seq<u8>> {
    choose|l: Seq<Seq<u8>>| strictly_sorted(l) && l.to_set() == m
}

/// Whether every string of `l` has a byte at `n` equal to that of the first.
pub open spec fn shared_at(l: Seq<Seq<u8>>, n: int) -> bool {
    forall|j: int| 0 <= j < l.len() ==> n < l[j].len() && l[j][n] == l[0][n]
}

/// The length of the longest common prefix of the strings of `l`, counted from `n`.
pub open spec fn lcp_from(l: Seq<Seq<u8>>, n: int) -> int
    decreases (if l.len() > 0 { l[0].len() - n } else { 0 }),
{
    if l.len() == 0 || n < 0 || n >= l[0].len() || !shared_at(l, n) { n } else { lcp_from(l, n + 1) }
}

/// The listing of several matches: each preceded by two spaces.
pub open spec fn listing(l: Seq<Seq<u8>>) -> Seq<ScreenOp>
    decreases l.len(),
{
    if l.len() == 0 { Seq::empty() } else { listing(l.drop_last()) + puts(seq![0x20u8, 0x20] + l.last()) }
}

/// Two strictly sorted sequences with the same elements are equal.
pub proof fn lemma_sorted_unique(a: Seq<Seq<u8>>, b: Seq<Seq<u8>>)
    requires
        strictly_sorted(a),
        strictly_sorted(b),
        a.to_set() == b.to_set(),
    ensures
        a == b,
    decreases a.len(),
{
    if a.len() == 0 {
        if b.len() > 0 {
            assert(b.to_set().contains(b[0]));
        }
        assert(a =~= b);
    } else {
        assert(a.to_set().contains(a[0]));
        assert(b.to_set().contains(a[0]));
        let j = choose|j: int| 0 <= j < b.len() && b[j] == a[0];
        assert(a.to_set().contains(b[0])) by { assert(b.to_set().contains(b[0])); }
        let i = choose|i: int| 0 <= i < a.len() && a[i] == b[0];
        if j > 0 && i > 0 {
            assert(lex_order(b[0], b[j]) == -1);
            assert(lex_order(a[0], a[i]) == -1);
            lemma_order_eq0(a[0], b[0]);
            assert(false);
        }
        assert(a[0] == b[0]) by {
            if j == 0 {} else { assert(i == 0); }
        }
        let a1 = a.drop_first();
        let b1 = b.drop_first();
        assert(a1.to_set() =~= b1.to_set()) by {
            assert forall|x: Seq<u8>| a1.to_set().contains(x) <==> b1.to_set().contains(x) by {
                if a1.to_set().contains(x) {
                    let k = choose|k: int| 0 <= k < a1.len() && a1[k] == x;
                    assert(a[k + 1] == x);
                    assert(lex_order(a[0], a[k + 1]) == -1);
                    lemma_order_eq0(a[0], x);
                    assert(b.to_set().contains(x)) by { assert(a.to_set().contains(x)); }
                    let m = choose|m: int| 0 <= m < b.len() && b[m] == x;
                    assert(m != 0);
                    assert(b1[m - 1] == x);
                }
                if b1.to_set().contains(x) {
                    let k = choose|k: int| 0 <= k < b1.len() && b1[k] == x;
                    assert(b[k + 1] == x);
                    assert(lex_order(b[0], b[k + 1]) == -1);
                    lemma_order_eq0(b[0], x);
                    assert(a.to_set().contains(x)) by { assert(b.to_set().contains(x)); }
                    let m = choose|m: int| 0 <= m < a.len() && a[m] == x;
                    assert(m != 0);
                    assert(a1[m - 1] == x);
                }
            }
        }
        lemma_sorted_unique(a1, b1);
        assert(a =~= b) by {
            assert forall|k: int| 0 <= k < a.len() implies a[k] == b[k] by {
                if k > 0 { assert(a1[k - 1] == b1[k - 1]); }
            }
        }
    }
}

/// A strictly sorted sequence is the sorted list of its own elements.
pub proof fn lemma_sorted_list_of(l: Seq<Seq<u8>>)
    requires
        strictly_sorted(l),
    ensures
        sorted_list(l.to_set()) == l,
{
    let s = sorted_list(l.to_set());
    assert(strictly_sorted(s) && s.to_set() == l.to_set());
    lemma_sorted_unique(s, l);
}

/// The length that `common_prefix_len` describes is `lcp_from(l, 0)`.
proof fn lemma_lcp(l: Seq<Seq<u8>>, n: int, k: int)
    requires
        l.len() > 0,
        common_prefix_len(l, n),
        0 <= k <= n,
    ensures
        lcp_from(l, k) == n,
    decreases n - k,
{
    if k == n {
        if n < l[0].len() {
            assert(n != l[0].len());
            assert(exists|j: int| 0 <= j < l.len() && (n >= l[j].len() || l[j][n] != l[0][n]));
            let j = choose|j: int| 0 <= j < l.len() && (n >= l[j].len() || l[j][n] != l[0][n]);
            assert(0 <= j < l.len());
            if shared_at(l, n) {
                assert(n < l[j].len() && l[j][n] == l[0][n]);
            }
        }
    } else {
        assert(shared_at(l, k)) by {
            assert forall|j: int| 0 <= j < l.len() implies k < l[j].len() && l[j][k] == l[0][k] by {
                assert(is_prefix(l[0].subrange(0, n), l[j]));
                assert(l[j].subrange(0, n)[k] == l[j][k]);
            }
        }
        lemma_lcp(l, n, k + 1);
    }
}

/// The matches after the first `n` candidates.
pub open spec fn matching_upto(cands: Seq<Seq<u8>>, prefix: Seq<u8>, n: int) -> Set<Seq<u8>> {
    matching(cands.subrange(0, n), prefix)
}

/// What `tab_complete` does, from `o` to `n`, writing `no` after `oo` (the escape state aside).
pub open spec fn tab_complete_effect(o: LineEditor, n: LineEditor, files: Seq<Vec<u8>>, oo: Seq<ScreenOp>, no: Seq<ScreenOp>) -> bool {
    &&& (n.history == o.history && n.hist_idx == o.hist_idx
        && n.saved == o.saved)
    &&& ({
        let b = o.buf@;
        let c = o.cursor as int;
        let p = b.subrange(word_start(b, c), c);
        let l = sorted_list(matching(command_names() + deep(files), p));
        if b.len() == 0 || l.len() == 0 {
            same_line(o, n) && no =~= oo
        } else if l.len() == 1 {
            let rest = l[0].subrange(p.len() as int, l[0].len() as int) + seq![0x20u8];
            &&& n.buf@ =~= b.subrange(0, c) + rest + b.subrange(c, b.len() as int)
            &&& n.cursor == c + rest.len()
            &&& no =~= oo + puts(rest)
        } else if lcp_from(l, 0) > p.len() {
            let rest = l[0].subrange(p.len() as int, lcp_from(l, 0));
            &&& n.buf@ =~= b.subrange(0, c) + rest + b.subrange(c, b.len() as int)
            &&& n.cursor == c + rest.len()
            &&& no =~= oo + puts(rest)
        } else {
            &&& same_line(o, n)
            &&& no =~= oo + seq![ScreenOp::Put(10)] + listing(l)
                + seq![ScreenOp::Put(10), ScreenOp::Prompt] + puts(b) + rep(ScreenOp::Put(8), b.len() - c)
        }
    })
}

impl LineEditor {
    /// Inserts `s[from..]` at the cursor, writing each byte; the cursor moves past them.
    fn insert_run(&mut self, s: &Vec<u8>, from: usize, out: &mut Vec<ScreenOp>)
        requires
            old(self).wf(),
            from <= s@.len(),
        ensures
            final(self).wf(),
            final(self).history == old(self).history && final(self).hist_idx == old(self).hist_idx
                && final(self).saved == old(self).saved && final(self).esc == old(self).esc,
            ({
                let c = old(self).cursor as int;
                let b = old(self).buf@;
                let rest = s@.subrange(from as int, s@.len() as int);
                &&& final(self).buf@ == b.subrange(0, c) + rest + b.subrange(c, b.len() as int)
                &&& final(self).cursor == c + rest.len()
                &&& final(out)@ == old(out)@ + puts(rest)
            }),
    {
        let ghost c = self.cursor as int;
        let ghost b = self.buf@;
        let mut i = from;
        while i < s.len()
            invariant
                from <= i <= s@.len(),
                self.wf(),
                self.history == old(self).history && self.hist_idx == old(self).hist_idx
                    && self.saved == old(self).saved && self.esc == old(self).esc,
                c == old(self).cursor,
                b == old(self).buf@,
                0 <= c <= b.len(),
                self.buf@.len() == b.len() + (i - from),
                self.buf@ == b.subrange(0, c) + s@.subrange(from as int, i as int) + b.subrange(c, b.len() as int),
                self.cursor == c + (i - from),
                out@ == old(out)@ + puts(s@.subrange(from as int, i as int)),
            decreases s@.len() - i,
        {
            let ch = s[i];
            self.buf.insert(self.cursor, ch);
            let n = self.buf.len();
            assert(self.cursor < n);
            self.cursor = self.cursor + 1;
            out.push(ScreenOp::Put(ch));
            assert(self.buf@ =~= b.subrange(0, c) + s@.subrange(from as int, i + 1) + b.subrange(c, b.len() as int));
            assert(out@ =~= old(out)@ + puts(s@.subrange(from as int, i + 1)));
            i = i + 1;
        }
    }

    /// Completes the word before the cursor against the command names and `files` (see the
    /// `ensures`): one match is inserted whole with a space after it; several matches have
    /// their common part inserted, or, when there is none to add, are listed under the line,
    /// which is then shown again.
    pub fn tab_complete(&mut self, files: &Vec<Vec<u8>>, out: &mut Vec<ScreenOp>)
        requires
            old(self).wf(),
        ensures
            final(self).wf(),
            final(self).esc == old(self).esc,
            tab_complete_effect(*old(self), *final(self), files@, old(out)@, final(out)@),

    {
        if self.buf.len() == 0 {
            return;
        }
        let mut start = self.cursor;
        while start > 0 && self.buf[start - 1] != 0x20 && self.buf[start - 1] != 9
            invariant
                start <= self.cursor <= self.buf@.len(),
                word_start(self.buf@, start as int) == word_start(self.buf@, self.cursor as int),
            decreases start,
        {
            start = start - 1;
        }
        let mut prefix: Vec<u8> = Vec::new();
        let mut i = start;
        while i < self.cursor
            invariant
                start <= i <= self.cursor <= self.buf@.len(),
                prefix@ == self.buf@.subrange(start as int, i as int),
            decreases self.cursor - i,
        {
            prefix.push(self.buf[i]);
            assert(prefix@ =~= self.buf@.subrange(start as int, i + 1));
            i = i + 1;
        }
        let matches = completions(files, &prefix);
        let ghost l = deep(matches@);
        proof {
            lemma_sorted_list_of(l);
        }
        let plen = prefix.len();
        if matches.len() == 0 {
            return;
        }
        proof {
            assert forall|q: int| 0 <= q < l.len() implies is_prefix(prefix@, #[trigger] l[q]) by {
                assert(l.to_set().contains(l[q]));
            }
        }
        if matches.len() == 1 {
            let m = &matches[0];
            assert(m@ == l[0]);
            self.insert_run(m, plen, out);
            let mut space: Vec<u8> = Vec::new();
            space.push(0x20);
            let ghost mid = self.buf@;
            self.insert_run(&space, 0, out);
            proof {
                let rest0 = l[0].subrange(plen as int, l[0].len() as int);
                assert(space@.subrange(0, 1) =~= seq![0x20u8]);
                assert(puts(rest0) + puts(seq![0x20u8]) =~= puts(rest0 + seq![0x20u8]));
                let b = old(self).buf@;
                let c = old(self).cursor as int;
                assert(mid.subrange(0, c + rest0.len()) =~= b.subrange(0, c) + rest0);
                assert(mid.subrange(c + rest0.len(), mid.len() as int) =~= b.subrange(c, b.len() as int));
                assert(self.buf@ =~= b.subrange(0, c) + (rest0 + seq![0x20u8]) + b.subrange(c, b.len() as int));
            }
            return;
        }
        let common = longest_common_prefix(&matches);
        proof {
            assert(deep_bytes(matches@) =~= l);
            lemma_lcp(l, common@.len() as int, 0);
        }
        if common.len() > plen {
            assert(common@ == l[0].subrange(0, common@.len() as int));
            assert(common@.subrange(plen as int, common@.len() as int) =~= l[0].subrange(plen as int, lcp_from(l, 0)));
            self.insert_run(&common, plen, out);
            return;
        }
        proof {
            assert(is_prefix(prefix@, l[0]));
            assert(common@.len() <= plen);
        }
        out.push(ScreenOp::Put(10));
        push_listing(out, &matches);
        out.push(ScreenOp::Put(10));
        out.push(ScreenOp::Prompt);
        push_all(out, &self.buf);
        let remaining = self.buf.len() - self.cursor;
        let mut r: usize = 0;
        let ghost o2 = out@;
        while r < remaining
            invariant
                r <= remaining,
                out@ == o2 + rep(ScreenOp::Put(8), r as int),
            decreases remaining - r,
        {
            out.push(ScreenOp::Put(8));
            assert(out@ =~= o2 + rep(ScreenOp::Put(8), r + 1));
            r = r + 1;
        }
        assert(out@ =~= old(out)@ + seq![ScreenOp::Put(10)] + listing(l)
            + seq![ScreenOp::Put(10), ScreenOp::Prompt] + puts(self.buf@) + rep(ScreenOp::Put(8), remaining as int));
    }
}

/// The candidates: the command names, then `files`.
fn candidates(files: &Vec<Vec<u8>>) -> (r: Vec<Vec<u8>>)
    ensures
        deep(r@) == command_names() + deep(files@),
{
    let mut cands = command_list();
    let mut k: usize = 0;
    while k < files.len()
        invariant
            k <= files@.len(),
            deep(cands@) == command_names() + deep(files@).subrange(0, k as int),
        decreases files@.len() - k,
    {
        let f = files[k].clone();
        assert(f@ == files@[k as int]@);
        let ghost before = deep(cands@);
        cands.push(f);
        assert(deep(cands@) =~= before.push(f@));
        assert(deep(files@).subrange(0, k + 1) =~= deep(files@).subrange(0, k as int).push(files@[k as int]@));
        assert(deep(cands@) =~= command_names() + deep(files@).subrange(0, k + 1));
        k = k + 1;
    }
    assert(deep(files@).subrange(0, files@.len() as int) =~= deep(files@));
    cands
}

/// The candidates that begin with `prefix`, in byte-wise order without repeats.
fn completions(files: &Vec<Vec<u8>>, prefix: &Vec<u8>) -> (r: Vec<Vec<u8>>)
    ensures
        strictly_sorted(deep(r@)),
        deep(r@).to_set() == matching(command_names() + deep(files@), prefix@),
{
    let cands = candidates(files);
    let ghost all = command_names() + deep(files@);
    let mut matches: Vec<Vec<u8>> = Vec::new();
    let mut j: usize = 0;
    assert(matching_upto(all, prefix@, 0) =~= Set::empty()) by {
        assert(all.subrange(0, 0).to_set() =~= Set::empty());
    }
    while j < cands.len()
        invariant
            j <= cands@.len(),
            deep(cands@) == all,
            strictly_sorted(deep(matches@)),
            deep(matches@).to_set() == matching_upto(all, prefix@, j as int),
        decreases cands@.len() - j,
    {
        assert(all[j as int] == cands@[j as int]@);
        proof { lemma_upto_step(all, prefix@, j as int); }
        if starts_with(&cands[j], prefix) {
            let cj = cands[j].clone();
            insert_sorted(&mut matches, cj);
        }
        j = j + 1;
    }
    assert(all.subrange(0, all.len() as int) =~= all);
    matches
}

/// Writes each of `l`, two spaces before it.
fn push_listing(out: &mut Vec<ScreenOp>, matches: &Vec<Vec<u8>>)
    ensures
        final(out)@ == old(out)@ + listing(deep(matches@)),
{
    let ghost l = deep(matches@);
    let mut q: usize = 0;
    while q < matches.len()
        invariant
            q <= matches@.len(),
            l == deep(matches@),
            out@ == old(out)@ + listing(l.subrange(0, q as int)),
        decreases matches@.len() - q,
    {
        let ghost o1 = out@;
        out.push(ScreenOp::Put(0x20));
        out.push(ScreenOp::Put(0x20));
        push_all(out, &matches[q]);
        proof {
            let lq = l.subrange(0, q + 1);
            assert(lq.drop_last() =~= l.subrange(0, q as int));
            assert(lq.last() == matches@[q as int]@);
            assert(puts(seq![0x20u8, 0x20] + lq.last()) =~= seq![ScreenOp::Put(0x20), ScreenOp::Put(0x20)] + puts(matches@[q as int]@));
            assert(out@ =~= o1 + puts(seq![0x20u8, 0x20] + lq.last()));
        }
        q = q + 1;
    }
    assert(l.subrange(0, l.len() as int) =~= l);
}

/// One more candidate adds itself to the matches exactly when it begins with the prefix.
proof fn lemma_upto_step(all: Seq<Seq<u8>>, prefix: Seq<u8>, j: int)
    requires
        0 <= j < all.len(),
    ensures
        is_prefix(prefix, all[j]) ==> matching_upto(all, prefix, j + 1) == matching_upto(all, prefix, j).insert(all[j]),
        !is_prefix(prefix, all[j]) ==> matching_upto(all, prefix, j + 1) == matching_upto(all, prefix, j),
{
    let s0 = all.subrange(0, j);
    let s1 = all.subrange(0, j + 1);
    assert(s1 =~= s0.push(all[j]));
    assert(s1.to_set() =~= s0.to_set().insert(all[j])) by {
        assert forall|x: Seq<u8>| s1.to_set().contains(x) <==> s0.to_set().insert(all[j]).contains(x) by {
            if s1.to_set().contains(x) {
                let k = choose|k: int| 0 <= k < s1.len() && s1[k] == x;
                if k < j { assert(s0[k] == x); }
            }
            if s0.to_set().contains(x) {
                let k = choose|k: int| 0 <= k < s0.len() && s0[k] == x;
                assert(s1[k] == x);
            }
            if x == all[j] { assert(s1[j] == x); }
        }
    }
    if is_prefix(prefix, all[j]) {
        assert(matching_upto(all, prefix, j + 1) =~= matching_upto(all, prefix, j).insert(all[j]));
    } else {
        assert(matching_upto(all, prefix, j + 1) =~= matching_upto(all, prefix, j));
    }
}

/// Whether `s` begins with `p`.
pub fn starts_with(s: &Vec<u8>, p: &Vec<u8>) -> (r: bool)
    ensures
        r == is_prefix(p@, s@),
{
    if p.len() > s.len() {
        return false;
    }
    let mut i: usize = 0;
    while i < p.len()
        invariant
            p@.len() <= s@.len(),
            i <= p@.len(),
            forall|k: int| 0 <= k < i ==> s@[k] == p@[k],
        decreases p@.len() - i,
    {
        if s[i] != p[i] {
            assert(s@.subrange(0, p@.len() as int)[i as int] == s@[i as int]);
            return false;
        }
        i = i + 1;
    }
    assert(s@.subrange(0, p@.len() as int) =~= p@);
    true
}

/// Writes each byte of `s`.
fn push_all(out: &mut Vec<ScreenOp>, s: &Vec<u8>)
    ensures
        final(out)@ == old(out)@ + puts(s@),
{
    let mut i: usize = 0;
    while i < s.len()
        invariant
            i <= s@.len(),
            out@ == old(out)@ + puts(s@.subrange(0, i as int)),
        decreases s@.len() - i,
    {
        out.push(ScreenOp::Put(s[i]));
        assert(out@ =~= old(out)@ + puts(s@.subrange(0, i + 1)));
        i = i + 1;
    }
    assert(s@.subrange(0, s@.len() as int) =~= s@);
}

} // verus!
