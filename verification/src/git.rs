//! The repository status model and the parser for the output of
//! `git status --porcelain=v2 --branch -z --untracked-files=all`.
use vstd::prelude::*;
use vstd::string::*;
use vstd::utf8::*;

use crate::text::{
    bytes_less, bytes_lt, chars_of, find_byte, find_from, lemma_bytes_lt_irreflexive,
    lemma_bytes_lt_total, lemma_bytes_lt_transitive, lemma_find_from_bounds, lemma_find_from_skip,
    owned, to_lossy, trim_ws, trimmed, utf8_lossy,
};

verus! {

/// One changed path with its two-letter status code.
#[derive(Clone, PartialEq, Eq)]
pub struct StatusEntry {
    pub path: String,
    pub code: String,
}

/// A snapshot of the repository status, as the web page shows it.
#[derive(Clone, PartialEq, Eq)]
pub struct StatusSnapshot {
    pub repo_path: String,
    pub branch: String,
    pub clean: bool,
    pub staged: usize,
    pub unstaged: usize,
    pub untracked: usize,
    pub updated_unix_ms: u64,
    pub error: String,
    pub entries: Vec<StatusEntry>,
}

/// The abstract value of a [`StatusEntry`].
pub struct EntryView {
    pub path: Seq<char>,
    pub code: Seq<char>,
}

impl View for StatusEntry {
    type V = EntryView;

    open spec fn view(&self) -> EntryView {
        EntryView { path: self.path@, code: self.code@ }
    }
}

/// The abstract values of a sequence of entries.
pub open spec fn entry_views(s: Seq<StatusEntry>) -> Seq<EntryView> {
    s.map_values(|e: StatusEntry| e@)
}

/// What the parser has gathered so far: the branch, the three counters and
/// the entries in the order in which git reported them.
pub struct Tally {
    pub branch: Seq<char>,
    pub staged: nat,
    pub unstaged: nat,
    pub untracked: nat,
    pub entries: Seq<EntryView>,
}

/// The tally that a snapshot under construction stands for.
pub open spec fn tally_of(s: StatusSnapshot) -> Tally {
    Tally {
        branch: s.branch@,
        staged: s.staged as nat,
        unstaged: s.unstaged as nat,
        untracked: s.untracked as nat,
        entries: entry_views(s.entries@),
    }
}

/// The record that carries the current branch starts with these bytes.
pub const BRANCH_HEAD_TAG: &'static str = "# branch.head ";

/// Byte value of the ASCII space.
pub open spec fn space() -> u8 {
    ' ' as u8
}

/// The records of the `-z` output: the pieces between NUL bytes (the piece
/// after the last NUL included, empty or not).
pub open spec fn split_records(s: Seq<u8>) -> Seq<Seq<u8>>
    decreases s.len(),
{
    let j = find_from(s, 0u8, 0);
    if j >= s.len() || j < 0 {
        seq![s]
    } else {
        seq![s.take(j)] + split_records(s.skip(j + 1))
    }
}

/// The position just after the `k`-th space of `r` (0 for `k == 0`), if
/// `r` has that many spaces.
pub open spec fn after_spaces(r: Seq<u8>, k: nat) -> Option<int>
    decreases k,
{
    if k == 0 {
        Some(0)
    } else {
        match after_spaces(r, (k - 1) as nat) {
            Some(i) => if find_from(r, space(), i) < r.len() {
                Some(find_from(r, space(), i) + 1)
            } else {
                None
            },
            None => None,
        }
    }
}

/// What `parse_code_and_path` takes from a record split into at most `n`
/// space-separated fields: the second field (the status code) and the last
/// field, which runs to the end of the record (the path). `None` when the
/// record has fewer than `n - 1` spaces.
pub open spec fn code_and_path(r: Seq<u8>, n: nat) -> Option<(Seq<u8>, Seq<u8>)> {
    match after_spaces(r, (n - 1) as nat) {
        Some(p) => Some(
            (
                r.subrange(after_spaces(r, 1)->0, after_spaces(r, 2)->0 - 1),
                r.skip(p),
            ),
        ),
        None => None,
    }
}

/// The status code that marks an untracked path.
pub open spec fn untracked_code() -> Seq<char> {
    seq!['?', '?']
}

/// The status code that marks an ignored path.
pub open spec fn ignored_code() -> Seq<char> {
    seq!['!', '!']
}

/// The status codes of unmerged paths.
pub open spec fn conflict_code(c: Seq<char>) -> bool {
    ||| c == seq!['D', 'D']
    ||| c == seq!['A', 'U']
    ||| c == seq!['U', 'D']
    ||| c == seq!['U', 'A']
    ||| c == seq!['D', 'U']
    ||| c == seq!['A', 'A']
    ||| c == seq!['U', 'U']
}

/// The branch name as shown: git's placeholders become upper-case words.
pub open spec fn branch_label(head: Seq<char>) -> Seq<char> {
    if head == "(detached)"@ {
        "DETACHED"@
    } else if head == "(unknown)"@ {
        "UNKNOWN"@
    } else {
        head
    }
}

/// The tally after one more entry: an untracked path counts as untracked, a
/// conflict as both staged and unstaged; for any other code of exactly two
/// UTF-8 bytes the first byte tells whether the index changed and the second
/// whether the work tree changed (a space means unchanged).
pub open spec fn add_entry(t: Tally, code: Seq<char>, path: Seq<char>) -> Tally {
    let entries = t.entries.push(EntryView { path, code });
    let b = encode_utf8(code);
    if code == untracked_code() {
        Tally {
            branch: t.branch,
            staged: t.staged,
            unstaged: t.unstaged,
            untracked: t.untracked + 1,
            entries,
        }
    } else if conflict_code(code) {
        Tally {
            branch: t.branch,
            staged: t.staged + 1,
            unstaged: t.unstaged + 1,
            untracked: t.untracked,
            entries,
        }
    } else if b.len() == 2 {
        Tally {
            branch: t.branch,
            staged: t.staged + if b[0] != space() { 1nat } else { 0nat },
            unstaged: t.unstaged + if b[1] != space() { 1nat } else { 0nat },
            untracked: t.untracked,
            entries,
        }
    } else {
        Tally {
            branch: t.branch,
            staged: t.staged,
            unstaged: t.unstaged,
            untracked: t.untracked,
            entries,
        }
    }
}

/// The tally with a new branch.
pub open spec fn with_branch(t: Tally, branch: Seq<char>) -> Tally {
    Tally {
        branch,
        staged: t.staged,
        unstaged: t.unstaged,
        untracked: t.untracked,
        entries: t.entries,
    }
}

/// The tally with which parsing starts.
pub open spec fn initial_tally() -> Tally {
    Tally { branch: "DETACHED"@, staged: 0, unstaged: 0, untracked: 0, entries: seq![] }
}

/// An error message: a fixed prefix and the offending record.
pub open spec fn record_error(prefix: Seq<char>, r: Seq<u8>) -> Seq<char> {
    prefix + utf8_lossy(r)
}

/// The meaning of a sequence of porcelain v2 records, read front to back
/// from the tally `t`: either the final tally or the error message of the
/// first malformed record.
pub open spec fn parse_records(recs: Seq<Seq<u8>>, t: Tally) -> Result<Tally, Seq<char>>
    decreases recs.len(),
{
    if recs.len() == 0 {
        Ok(t)
    } else {
        let r = recs[0];
        let rest = recs.drop_first();
        let tag = BRANCH_HEAD_TAG.spec_bytes();
        if r.len() == 0 {
            parse_records(rest, t)
        } else if tag.len() <= r.len() && r.take(tag.len() as int) == tag {
            parse_records(rest, with_branch(t, branch_label(utf8_lossy(r.skip(tag.len() as int)))))
        } else if r[0] == '1' as u8 {
            match code_and_path(r, 9) {
                Some((c, p)) => parse_records(rest, add_entry(t, utf8_lossy(c), utf8_lossy(p))),
                None => Err(record_error("invalid status record: "@, r)),
            }
        } else if r[0] == '2' as u8 {
            match code_and_path(r, 10) {
                Some((c, p)) => if rest.len() == 0 {
                    Err(record_error("missing original path for: "@, r))
                } else {
                    parse_records(
                        rest.drop_first(),
                        add_entry(
                            t,
                            utf8_lossy(c),
                            utf8_lossy(rest[0]) + " -> "@ + utf8_lossy(p),
                        ),
                    )
                },
                None => Err(record_error("invalid rename/copy record: "@, r)),
            }
        } else if r[0] == 'u' as u8 {
            match code_and_path(r, 10) {
                Some((c, p)) => parse_records(rest, add_entry(t, utf8_lossy(c), utf8_lossy(p))),
                None => Err(record_error("invalid unmerged record: "@, r)),
            }
        } else if r[0] == '?' as u8 {
            if r.len() >= 2 && r[1] == space() {
                parse_records(rest, add_entry(t, untracked_code(), utf8_lossy(r.skip(2))))
            } else {
                Err(record_error("invalid untracked record: "@, r))
            }
        } else if r[0] == '!' as u8 {
            if r.len() >= 2 && r[1] == space() {
                parse_records(rest, add_entry(t, ignored_code(), utf8_lossy(r.skip(2))))
            } else {
                Err(record_error("invalid ignored record: "@, r))
            }
        } else {
            parse_records(rest, t)
        }
    }
}

proof fn lemma_after_spaces_none(r: Seq<u8>, k: nat, m: nat)
    requires
        k <= m,
        after_spaces(r, k) is None,
    ensures
        after_spaces(r, m) is None,
    decreases m - k,
{
    if k < m {
        lemma_after_spaces_none(r, k, (m - 1) as nat);
    }
}

proof fn lemma_after_spaces_grows(r: Seq<u8>, k: nat)
    requires
        after_spaces(r, k + 1) is Some,
    ensures
        after_spaces(r, k) is Some,
        after_spaces(r, k)->0 < after_spaces(r, k + 1)->0 <= r.len(),
        0 <= after_spaces(r, k)->0,
        r[after_spaces(r, k + 1)->0 - 1] == space(),
    decreases k,
{
    let i = after_spaces(r, k)->0;
    if k > 0 {
        lemma_after_spaces_grows(r, (k - 1) as nat);
    }
    lemma_find_from_bounds(r, space(), i);
}

/// Splits a record into at most `split_count` space-separated fields and
/// returns the second one (the status code, as text) and the last one (the
/// path, which runs to the end of the record). With fewer than three fields
/// there is no such pair.
pub fn parse_code_and_path(record: &[u8], split_count: usize) -> (res: Option<(String, &[u8])>)
    ensures
        split_count < 3 ==> res is None,
        3 <= split_count ==> match (res, code_and_path(record@, split_count as nat)) {
            (Some((c, p)), Some((cb, pb))) => c@ == utf8_lossy(cb) && p@ == pb,
            (None, None) => true,
            _ => false,
        },
{
    if split_count < 3 {
        return None;
    }
    let mut k: usize = 0;
    let mut pos: usize = 0;
    let mut p1: usize = 0;
    let mut p2: usize = 0;
    while k < split_count - 1
        invariant
            3 <= split_count,
            k <= split_count - 1,
            after_spaces(record@, k as nat) == Some(pos as int),
            pos <= record@.len(),
            k >= 1 ==> after_spaces(record@, 1) == Some(p1 as int),
            k >= 2 ==> after_spaces(record@, 2) == Some(p2 as int),
        decreases split_count - 1 - k,
    {
        let j = find_byte(record, (' ' as u8), pos);
        proof {
            lemma_find_from_bounds(record@, space(), pos as int);
        }
        if j == record.len() {
            proof {
                assert(after_spaces(record@, (k + 1) as nat) is None);
                lemma_after_spaces_none(record@, (k + 1) as nat, (split_count - 1) as nat);
            }
            return None;
        }
        pos = j + 1;
        k = k + 1;
        if k == 1 {
            p1 = pos;
        }
        if k == 2 {
            p2 = pos;
        }
    }
    proof {
        lemma_after_spaces_grows(record@, 1);
    }
    let code = to_lossy(&record[p1..p2 - 1]);
    Some((code, &record[pos..record.len()]))
}

/// Whether a status code marks an unmerged path.
fn is_conflict_code(code: &str) -> (r: bool)
    ensures
        r == conflict_code(code@),
{
    let c = chars_of(code);
    proof {
        if c@.len() == 2 {
            assert(c@ =~= seq![c@[0], c@[1]]);
        }
    }
    c.len() == 2 && ((c[0] == 'D' && c[1] == 'D') || (c[0] == 'A' && c[1] == 'U') || (c[0] == 'U'
        && c[1] == 'D') || (c[0] == 'U' && c[1] == 'A') || (c[0] == 'D' && c[1] == 'U') || (c[0]
        == 'A' && c[1] == 'A') || (c[0] == 'U' && c[1] == 'U'))
}

/// The counters of a snapshot never exceed its number of entries.
pub open spec fn counters_bounded(s: StatusSnapshot) -> bool {
    &&& s.staged <= s.entries@.len()
    &&& s.unstaged <= s.entries@.len()
    &&& s.untracked <= s.entries@.len()
}

/// The counters of a tally fit in a `usize`.
pub open spec fn counters_fit(t: Tally) -> bool {
    &&& t.staged <= usize::MAX
    &&& t.unstaged <= usize::MAX
    &&& t.untracked <= usize::MAX
}

/// Records one entry at the end of the snapshot and updates the counters;
/// the updated counters must fit in a `usize`.
pub fn add_status_entry(snapshot: &mut StatusSnapshot, code: String, path: String)
    requires
        counters_fit(add_entry(tally_of(*old(snapshot)), code@, path@)),
    ensures
        tally_of(*final(snapshot)) == add_entry(tally_of(*old(snapshot)), code@, path@),
        counters_bounded(*old(snapshot)) ==> counters_bounded(*final(snapshot)),
        final(snapshot).entries@.len() == old(snapshot).entries@.len() + 1,
        entry_views(final(snapshot).entries@) == entry_views(old(snapshot).entries@).push(
            EntryView { path: path@, code: code@ },
        ),
        final(snapshot).branch == old(snapshot).branch,
        final(snapshot).repo_path == old(snapshot).repo_path,
        final(snapshot).clean == old(snapshot).clean,
        final(snapshot).updated_unix_ms == old(snapshot).updated_unix_ms,
        final(snapshot).error == old(snapshot).error,
{
    let ghost code_view = code@;
    let ghost before = tally_of(*snapshot);
    let c = chars_of(code.as_str());
    proof {
        if c@.len() == 2 {
            assert(c@ =~= seq![c@[0], c@[1]]);
        }
    }
    let untracked = c.len() == 2 && c[0] == '?' && c[1] == '?';
    let conflict = is_conflict_code(code.as_str());
    let b = code.as_str().as_bytes();
    let two = b.len() == 2;
    let index_changed = two && b[0] != (' ' as u8);
    let worktree_changed = two && b[1] != (' ' as u8);
    snapshot.entries.push(StatusEntry { path, code });
    let n = snapshot.entries.len();
    proof {
        assert(entry_views(snapshot.entries@) =~= before.entries.push(
            EntryView { path: snapshot.entries@.last().path@, code: code_view },
        ));
        assert(untracked == (code_view == untracked_code()));
    }
    if untracked {
        snapshot.untracked = snapshot.untracked + 1;
    } else if conflict {
        snapshot.staged = snapshot.staged + 1;
        snapshot.unstaged = snapshot.unstaged + 1;
    } else {
        if index_changed {
            snapshot.staged = snapshot.staged + 1;
        }
        if worktree_changed {
            snapshot.unstaged = snapshot.unstaged + 1;
        }
    }
}

/// The key by which entries are ordered: the UTF-8 bytes of the path.
pub open spec fn path_key(e: EntryView) -> Seq<u8> {
    encode_utf8(e.path)
}

/// Entries in ascending order of path.
pub open spec fn sorted_by_path(s: Seq<EntryView>) -> bool {
    forall|i: int, j: int|
        0 <= i < j < s.len() ==> !bytes_lt(#[trigger] path_key(s[j]), #[trigger] path_key(s[i]))
}

/// The entries of `s` whose path has the key `k`, in their order in `s`.
pub open spec fn with_path_key(s: Seq<EntryView>, k: Seq<u8>) -> Seq<EntryView> {
    s.filter(|e: EntryView| path_key(e) == k)
}

/// `out` is `inp` sorted by path, entries with equal paths keeping their
/// relative order (a stable sort).
pub open spec fn is_stable_sort_by_path(out: Seq<EntryView>, inp: Seq<EntryView>) -> bool {
    &&& sorted_by_path(out)
    &&& forall|k: Seq<u8>| #[trigger] with_path_key(out, k) == with_path_key(inp, k)
    &&& same_counts(out, inp)
}

/// Every property holds of as many entries of `a` as of `b`: `a` is a
/// permutation of `b`.
pub open spec fn same_counts(a: Seq<EntryView>, b: Seq<EntryView>) -> bool {
    forall|p: spec_fn(EntryView) -> bool| #[trigger] a.filter(p).len() == b.filter(p).len()
}

proof fn lemma_insert_filter_len(s: Seq<EntryView>, x: EntryView, p: int)
    requires
        0 <= p <= s.len(),
    ensures
        forall|pred: spec_fn(EntryView) -> bool|
            #[trigger] s.insert(p, x).filter(pred).len() == s.filter(pred).len() + seq![x].filter(
                pred,
            ).len(),
{
    assert forall|pred: spec_fn(EntryView) -> bool|
        #[trigger] s.insert(p, x).filter(pred).len() == s.filter(pred).len() + seq![x].filter(
            pred,
        ).len() by {
        let a = s.take(p);
        let b = s.skip(p);
        assert(s =~= a + b);
        assert(s.insert(p, x) =~= a + (seq![x] + b));
        Seq::filter_distributes_over_add(a, seq![x] + b, pred);
        Seq::filter_distributes_over_add(seq![x], b, pred);
        Seq::filter_distributes_over_add(a, b, pred);
    }
}

proof fn lemma_insert_sorted(s: Seq<EntryView>, x: EntryView, p: int)
    requires
        sorted_by_path(s),
        0 <= p <= s.len(),
        forall|q: int| 0 <= q < p ==> !bytes_lt(path_key(x), #[trigger] path_key(s[q])),
        forall|q: int| p <= q < s.len() ==> bytes_lt(path_key(x), #[trigger] path_key(s[q])),
    ensures
        sorted_by_path(s.insert(p, x)),
        forall|k: Seq<u8>|
            #[trigger] with_path_key(s.insert(p, x), k) == with_path_key(s, k) + with_path_key(
                seq![x],
                k,
            ),
{
    let t = s.insert(p, x);
    assert forall|i: int, j: int| 0 <= i < j < t.len() implies !bytes_lt(
        #[trigger] path_key(t[j]),
        #[trigger] path_key(t[i]),
    ) by {
        if i == p {
            lemma_bytes_lt_total(path_key(x), path_key(s[j - 1]));
        } else if j == p {
        } else {
            let si = if i < p { i } else { i - 1 };
            let sj = if j < p { j } else { j - 1 };
            assert(path_key(t[i]) == path_key(s[si]));
            assert(path_key(t[j]) == path_key(s[sj]));
        }
    }
    assert forall|k: Seq<u8>| #[trigger]
        with_path_key(s.insert(p, x), k) == with_path_key(s, k) + with_path_key(seq![x], k) by {
        let pred = |e: EntryView| path_key(e) == k;
        let a = s.take(p);
        let b = s.skip(p);
        assert(s =~= a + b);
        assert(t =~= a + (seq![x] + b));
        Seq::filter_distributes_over_add(a, seq![x] + b, pred);
        Seq::filter_distributes_over_add(seq![x], b, pred);
        Seq::filter_distributes_over_add(a, b, pred);
        if path_key(x) == k {
            assert forall|q: int| 0 <= q < b.len() implies !pred(b[q]) by {
                assert(b[q] == s[p + q]);
                lemma_bytes_lt_irreflexive(path_key(x));
            }
            b.lemma_all_neg_filter_empty(pred);
            assert(b.filter(pred) =~= Seq::<EntryView>::empty());
            assert(seq![x].filter(pred) + b.filter(pred) =~= seq![x].filter(pred));
            assert(a.filter(pred) + b.filter(pred) =~= a.filter(pred));
        } else {
            reveal_with_fuel(Seq::filter, 2);
            assert(seq![x].filter(pred) =~= Seq::<EntryView>::empty());
            assert(seq![x].filter(pred) + b.filter(pred) =~= b.filter(pred));
            assert(with_path_key(s, k) + with_path_key(seq![x], k) =~= with_path_key(s, k));
        }
    }
}

/// The entries with key `k` after one more entry.
proof fn lemma_group_push(s: Seq<EntryView>, k: Seq<u8>)
    requires
        s.len() > 0,
    ensures
        with_path_key(s, k) == if path_key(s.last()) == k {
            with_path_key(s.drop_last(), k).push(s.last())
        } else {
            with_path_key(s.drop_last(), k)
        },
{
    assert(s =~= s.drop_last().push(s.last()));
    s.drop_last().lemma_filter_push(s.last(), |e: EntryView| path_key(e) == k);
}

/// An entry with key `k` stands in `s` when the group of `k` is not empty.
proof fn lemma_group_member(s: Seq<EntryView>, k: Seq<u8>) -> (i: int)
    requires
        with_path_key(s, k).len() > 0,
    ensures
        0 <= i < s.len(),
        path_key(s[i]) == k,
{
    let pred = |e: EntryView| path_key(e) == k;
    let g = s.filter(pred);
    s.lemma_filter_pred(pred, 0);
    assert(g.contains(g[0]));
    s.lemma_filter_contains_rev(pred, g[0]);
    choose|i: int| 0 <= i < s.len() && s[i] == g[0]
}

proof fn lemma_sorted_drop_last(a: Seq<EntryView>)
    requires
        sorted_by_path(a),
        a.len() > 0,
    ensures
        sorted_by_path(a.drop_last()),
{
    assert forall|i: int, j: int| 0 <= i < j < a.drop_last().len() implies !bytes_lt(
        #[trigger] path_key(a.drop_last()[j]),
        #[trigger] path_key(a.drop_last()[i]),
    ) by {
        assert(a.drop_last()[j] == a[j] && a.drop_last()[i] == a[i]);
    }
}

/// The last entries of two sorted sequences with the same groups have the
/// same key: the greatest one.
proof fn lemma_last_keys_equal(a: Seq<EntryView>, b: Seq<EntryView>)
    requires
        sorted_by_path(a),
        sorted_by_path(b),
        a.len() > 0,
        b.len() > 0,
        forall|k: Seq<u8>| #[trigger] with_path_key(a, k) == with_path_key(b, k),
    ensures
        path_key(a.last()) == path_key(b.last()),
{
    let m = path_key(a.last());
    let n = path_key(b.last());
    lemma_group_push(b, n);
    assert(with_path_key(a, n) == with_path_key(b, n));
    let i = lemma_group_member(a, n);
    if i < a.len() - 1 {
        assert(!bytes_lt(path_key(a[a.len() - 1]), path_key(a[i])));
    }
    lemma_group_push(a, m);
    assert(with_path_key(b, m) == with_path_key(a, m));
    let j = lemma_group_member(b, m);
    if j < b.len() - 1 {
        assert(!bytes_lt(path_key(b[b.len() - 1]), path_key(b[j])));
    }
    lemma_bytes_lt_total(m, n);
}

/// Two sequences sorted by path whose groups of equal paths agree are equal.
proof fn lemma_sorted_groups_determine(a: Seq<EntryView>, b: Seq<EntryView>)
    requires
        sorted_by_path(a),
        sorted_by_path(b),
        forall|k: Seq<u8>| #[trigger] with_path_key(a, k) == with_path_key(b, k),
    ensures
        a == b,
    decreases a.len() + b.len(),
{
    if a.len() == 0 && b.len() == 0 {
        assert(a =~= b);
    } else if a.len() == 0 {
        let n = path_key(b.last());
        lemma_group_push(b, n);
        assert(with_path_key(a, n).len() == 0) by {
            reveal(Seq::filter);
        }
    } else if b.len() == 0 {
        let m = path_key(a.last());
        lemma_group_push(a, m);
        assert(with_path_key(b, m).len() == 0) by {
            reveal(Seq::filter);
        }
    } else {
        lemma_last_keys_equal(a, b);
        let m = path_key(a.last());
        lemma_group_push(a, m);
        lemma_group_push(b, m);
        let ga = with_path_key(a.drop_last(), m);
        let gb = with_path_key(b.drop_last(), m);
        assert(with_path_key(a, m) == with_path_key(b, m));
        assert(ga.push(a.last()) == gb.push(b.last()));
        assert(ga =~= ga.push(a.last()).drop_last());
        assert(gb =~= gb.push(b.last()).drop_last());
        assert(a.last() == ga.push(a.last()).last());
        assert forall|k: Seq<u8>| #[trigger]
            with_path_key(a.drop_last(), k) == with_path_key(b.drop_last(), k) by {
            lemma_group_push(a, k);
            lemma_group_push(b, k);
            assert(with_path_key(a, k) == with_path_key(b, k));
        }
        lemma_sorted_drop_last(a);
        lemma_sorted_drop_last(b);
        lemma_sorted_groups_determine(a.drop_last(), b.drop_last());
        assert(a =~= a.drop_last().push(a.last()));
        assert(b =~= b.drop_last().push(b.last()));
    }
}

/// A stable sort by path has exactly one outcome: two sequences that are
/// both the input sorted stably by path are equal.
pub proof fn law_stable_sort_unique(a: Seq<EntryView>, b: Seq<EntryView>, input: Seq<EntryView>)
    requires
        is_stable_sort_by_path(a, input),
        is_stable_sort_by_path(b, input),
    ensures
        a == b,
{
    assert forall|k: Seq<u8>| #[trigger] with_path_key(a, k) == with_path_key(b, k) by {
        assert(with_path_key(a, k) == with_path_key(input, k));
        assert(with_path_key(b, k) == with_path_key(input, k));
    }
    lemma_sorted_groups_determine(a, b);
}

/// Orders entries by path, keeping the relative order of equal paths.
fn sort_entries_by_path(entries: Vec<StatusEntry>) -> (out: Vec<StatusEntry>)
    ensures
        is_stable_sort_by_path(entry_views(out@), entry_views(entries@)),
        out@.len() == entries@.len(),
{
    let ghost orig = entry_views(entries@);
    let mut input = entries;
    let mut out: Vec<StatusEntry> = Vec::new();
    let ghost mut i: int = 0;
    assert(orig.skip(0) =~= orig);
    while input.len() > 0
        invariant
            0 <= i <= orig.len(),
            orig.len() == entries@.len(),
            out@.len() == i,
            entry_views(input@) == orig.skip(i),
            sorted_by_path(entry_views(out@)),
            forall|k: Seq<u8>|
                #[trigger] with_path_key(entry_views(out@), k) == with_path_key(orig.take(i), k),
            same_counts(entry_views(out@), orig.take(i)),
        decreases input@.len(),
    {
        let ghost old_input = input@;
        assert(entry_views(old_input).len() == old_input.len());
        assert(i < orig.len());
        assert(entry_views(old_input)[0] == old_input[0]@);
        assert(orig.skip(i)[0] == orig[i]);
        let x = input.remove(0);
        let ghost xv = x@;
        assert(xv == orig[i]);
        let mut p: usize = 0;
        {
            let kx = x.path.as_str().as_bytes();
            while p < out.len() && !bytes_less(kx, out[p].path.as_str().as_bytes())
                invariant
                    p <= out@.len(),
                    kx@ == path_key(xv),
                    forall|q: int|
                        0 <= q < p ==> !bytes_lt(
                            path_key(xv),
                            #[trigger] path_key(entry_views(out@)[q]),
                        ),
                decreases out@.len() - p,
            {
                p = p + 1;
            }
        }
        let ghost ov = entry_views(out@);
        proof {
            assert forall|q: int| p <= q < ov.len() implies bytes_lt(
                path_key(xv),
                #[trigger] path_key(ov[q]),
            ) by {
                assert(bytes_lt(path_key(xv), path_key(ov[p as int])));
                if q > p {
                    lemma_bytes_lt_total(path_key(ov[p as int]), path_key(ov[q]));
                    if path_key(ov[p as int]) != path_key(ov[q]) {
                        lemma_bytes_lt_transitive(
                            path_key(xv),
                            path_key(ov[p as int]),
                            path_key(ov[q]),
                        );
                    }
                }
            }
            lemma_insert_sorted(ov, xv, p as int);
            lemma_insert_filter_len(ov, xv, p as int);
        }
        out.insert(p, x);
        proof {
            assert(entry_views(out@) =~= ov.insert(p as int, xv));
            assert(orig.take(i + 1) =~= orig.take(i) + seq![xv]);
            assert forall|pred: spec_fn(EntryView) -> bool| #[trigger]
                entry_views(out@).filter(pred).len() == orig.take(i + 1).filter(pred).len() by {
                Seq::filter_distributes_over_add(orig.take(i), seq![xv], pred);
            }
            assert forall|k: Seq<u8>| #[trigger]
                with_path_key(entry_views(out@), k) == with_path_key(orig.take(i + 1), k) by {
                Seq::filter_distributes_over_add(
                    orig.take(i),
                    seq![xv],
                    |e: EntryView| path_key(e) == k,
                );
            }
            assert forall|j: int| 0 <= j < input@.len() implies #[trigger] entry_views(input@)[j]
                == orig.skip(i + 1)[j] by {
                assert(input@[j] == old_input[j + 1]);
                assert(entry_views(old_input)[j + 1] == orig.skip(i)[j + 1]);
            }
            assert(entry_views(input@) =~= orig.skip(i + 1));
            i = i + 1;
        }
    }
    assert(orig.take(i) =~= orig);
    out
}

/// The records that remain to be read from `s` when the next one starts at
/// `pos` (none once the last one has been read).
pub open spec fn remaining_records(s: Seq<u8>, pos: int, more: bool) -> Seq<Seq<u8>> {
    if more {
        split_records(s.skip(pos))
    } else {
        seq![]
    }
}

proof fn lemma_split_records_at(s: Seq<u8>, a: int)
    requires
        0 <= a <= s.len(),
    ensures
        a <= find_from(s, 0u8, a) <= s.len(),
        split_records(s.skip(a)) == if find_from(s, 0u8, a) < s.len() {
            seq![s.subrange(a, find_from(s, 0u8, a))] + split_records(
                s.skip(find_from(s, 0u8, a) + 1),
            )
        } else {
            seq![s.subrange(a, find_from(s, 0u8, a))]
        },
{
    let t = s.skip(a);
    let j = find_from(s, 0u8, a);
    lemma_find_from_skip(s, 0u8, a, 0);
    lemma_find_from_bounds(s, 0u8, a);
    assert(find_from(t, 0u8, 0) == j - a);
    if j < s.len() {
        assert(t.take(j - a) =~= s.subrange(a, j));
        assert(t.skip(j - a + 1) =~= s.skip(j + 1));
    } else {
        assert(t =~= s.subrange(a, j));
    }
}

/// Reads the record that starts at `*pos` and moves past it.
fn take_record<'a>(s: &'a [u8], pos: &mut usize, more: &mut bool) -> (r: &'a [u8])
    requires
        *old(more),
        *old(pos) <= s@.len(),
    ensures
        remaining_records(s@, *old(pos) as int, true).len() > 0,
        r@ == remaining_records(s@, *old(pos) as int, true)[0],
        remaining_records(s@, *final(pos) as int, *final(more)) == remaining_records(
            s@,
            *old(pos) as int,
            true,
        ).drop_first(),
        *final(pos) <= s@.len(),
        *final(more) ==> *final(pos) > *old(pos),
        !*final(more) ==> *final(pos) == *old(pos),
        *final(more) ==> *final(pos) == *old(pos) + r@.len() + 1,
        !*final(more) ==> *old(pos) + r@.len() == s@.len(),
{
    let start = *pos;
    let end = find_byte(s, 0u8, start);
    proof {
        lemma_split_records_at(s@, start as int);
    }
    if end < s.len() {
        *pos = end + 1;
    } else {
        *more = false;
    }
    proof {
        let recs = remaining_records(s@, start as int, true);
        if end < s@.len() {
            assert(recs.drop_first() =~= split_records(s@.skip(end + 1)));
        } else {
            assert(recs.drop_first() =~= Seq::<Seq<u8>>::empty());
        }
    }
    &s[start..end]
}

/// Whether `s` starts with `prefix`.
fn starts_with(s: &[u8], prefix: &[u8]) -> (r: bool)
    ensures
        r == (prefix@.len() <= s@.len() && s@.take(prefix@.len() as int) == prefix@),
{
    if prefix.len() > s.len() {
        return false;
    }
    let mut i: usize = 0;
    while i < prefix.len()
        invariant
            prefix@.len() <= s@.len(),
            i <= prefix@.len(),
            forall|k: int| 0 <= k < i ==> s@[k] == prefix@[k],
        decreases prefix@.len() - i,
    {
        if s[i] != prefix[i] {
            assert(s@.take(prefix@.len() as int)[i as int] != prefix@[i as int]);
            return false;
        }
        i = i + 1;
    }
    assert(s@.take(prefix@.len() as int) =~= prefix@);
    true
}

/// An error message made of a fixed prefix and the offending record.
fn record_error_message(prefix: &str, record: &[u8]) -> (m: String)
    ensures
        m@ == record_error(prefix@, record@),
{
    let mut m = owned(prefix);
    let r = to_lossy(record);
    m.append(r.as_str());
    m
}

/// The branch name as shown for the name that git reported.
fn branch_label_of(head: String) -> (b: String)
    ensures
        b@ == branch_label(head@),
{
    if head == owned("(detached)") {
        owned("DETACHED")
    } else if head == owned("(unknown)") {
        owned("UNKNOWN")
    } else {
        head
    }
}

/// `snap` is the snapshot of the repository at `repo` taken at `now` whose
/// branch, counters and entries are those of the tally `t`, the entries
/// sorted by path.
pub open spec fn snapshot_of_tally(snap: StatusSnapshot, repo: Seq<char>, now: u64, t: Tally) -> bool {
    &&& snap.repo_path@ == repo
    &&& snap.branch@ == t.branch
    &&& snap.staged == t.staged
    &&& snap.unstaged == t.unstaged
    &&& snap.untracked == t.untracked
    &&& snap.updated_unix_ms == now
    &&& snap.error@ == Seq::<char>::empty()
    &&& snap.clean == (t.entries.len() == 0)
    &&& snap.entries@.len() == t.entries.len()
    &&& is_stable_sort_by_path(entry_views(snap.entries@), t.entries)
}

/// What parsing the output `stdout` gives: the snapshot of the tally of its
/// records, or the message of the first malformed record.
pub open spec fn parse_outcome(
    res: Result<StatusSnapshot, String>,
    repo: Seq<char>,
    stdout: Seq<u8>,
    now: u64,
) -> bool {
    match (res, parse_records(split_records(stdout), initial_tally())) {
        (Ok(snap), Ok(t)) => snapshot_of_tally(snap, repo, now, t),
        (Err(m), Err(e)) => m@ == e,
        _ => false,
    }
}

/// Parses the output of `git status --porcelain=v2 --branch -z
/// --untracked-files=all` run in `repo_path` at the time `now_unix_ms`.
pub fn parse_porcelain_v2(repo_path: &str, stdout: &[u8], now_unix_ms: u64) -> (res: Result<
    StatusSnapshot,
    String,
>)
    ensures
        parse_outcome(res, repo_path@, stdout@, now_unix_ms),
{
    let mut snapshot = StatusSnapshot {
        repo_path: owned(repo_path),
        branch: owned("DETACHED"),
        clean: true,
        staged: 0,
        unstaged: 0,
        untracked: 0,
        updated_unix_ms: now_unix_ms,
        error: String::new(),
        entries: Vec::new(),
    };
    let ghost all = parse_records(split_records(stdout@), initial_tally());
    let mut pos: usize = 0;
    let mut more = true;
    assert(stdout@.skip(0) =~= stdout@);
    assert(entry_views(snapshot.entries@) =~= Seq::<EntryView>::empty());
    let tag = BRANCH_HEAD_TAG.as_bytes();
    let total = stdout.len();
    while more
        invariant
            pos <= stdout@.len(),
            all == parse_records(split_records(stdout@), initial_tally()),
            all == parse_records(remaining_records(stdout@, pos as int, more), tally_of(snapshot)),
            counters_bounded(snapshot),
            more ==> snapshot.entries@.len() <= pos,
            !more ==> snapshot.entries@.len() <= stdout@.len(),
            stdout@.len() <= usize::MAX,
            snapshot.repo_path@ == repo_path@,
            snapshot.updated_unix_ms == now_unix_ms,
            snapshot.error@ == Seq::<char>::empty(),
            tag@ == BRANCH_HEAD_TAG.spec_bytes(),
        decreases stdout@.len() - pos + if more { 1int } else { 0int },
    {
        let ghost recs = remaining_records(stdout@, pos as int, more);
        let ghost entries_before = snapshot.entries@.len();
        let record = take_record(stdout, &mut pos, &mut more);
        assert(entries_before + record@.len() <= stdout@.len());
        let ghost rest = recs.drop_first();
        if record.len() == 0 {
        } else if starts_with(record, tag) {
            let head = to_lossy(&record[tag.len()..record.len()]);
            snapshot.branch = branch_label_of(head);
        } else if record[0] == ('1' as u8) {
            match parse_code_and_path(record, 9) {
                Some((code, path)) => {
                    let path = to_lossy(path);
                    add_status_entry(&mut snapshot, code, path);
                },
                None => {
                    return Err(record_error_message("invalid status record: ", record));
                },
            }
        } else if record[0] == ('2' as u8) {
            match parse_code_and_path(record, 10) {
                Some((code, path)) => {
                    if !more {
                        return Err(record_error_message("missing original path for: ", record));
                    }
                    let original = take_record(stdout, &mut pos, &mut more);
                    let mut shown = to_lossy(original);
                    shown.append(" -> ");
                    let path = to_lossy(path);
                    shown.append(path.as_str());
                    add_status_entry(&mut snapshot, code, shown);
                },
                None => {
                    return Err(record_error_message("invalid rename/copy record: ", record));
                },
            }
        } else if record[0] == ('u' as u8) {
            match parse_code_and_path(record, 10) {
                Some((code, path)) => {
                    let path = to_lossy(path);
                    add_status_entry(&mut snapshot, code, path);
                },
                None => {
                    return Err(record_error_message("invalid unmerged record: ", record));
                },
            }
        } else if record[0] == ('?' as u8) {
            if record.len() >= 2 && record[1] == (' ' as u8) {
                let path = to_lossy(&record[2..record.len()]);
                let code = owned("??");
                proof {
                    reveal_strlit("??");
                    assert(code@ =~= untracked_code());
                }
                add_status_entry(&mut snapshot, code, path);
            } else {
                return Err(record_error_message("invalid untracked record: ", record));
            }
        } else if record[0] == ('!' as u8) {
            if record.len() >= 2 && record[1] == (' ' as u8) {
                let path = to_lossy(&record[2..record.len()]);
                let code = owned("!!");
                proof {
                    reveal_strlit("!!");
                    assert(code@ =~= ignored_code());
                }
                add_status_entry(&mut snapshot, code, path);
            } else {
                return Err(record_error_message("invalid ignored record: ", record));
            }
        }
    }
    let StatusSnapshot {
        repo_path,
        branch,
        clean: _,
        staged,
        unstaged,
        untracked,
        updated_unix_ms,
        error,
        entries,
    } = snapshot;
    let entries = sort_entries_by_path(entries);
    let clean = entries.len() == 0;
    Ok(
        StatusSnapshot {
            repo_path,
            branch,
            clean,
            staged,
            unstaged,
            untracked,
            updated_unix_ms,
            error,
            entries,
        },
    )
}

/// The `git` command line as the status backend.
pub struct CliBackend;

/// What running `git status` in the repository gave.
pub enum GitRun {
    /// The command could not be started; the text of the error.
    NotStarted(String),
    /// The command ran: whether it exited successfully, the text of its exit
    /// status, and what it wrote to its standard output and error.
    Exited { success: bool, status: String, stdout: Vec<u8>, stderr: Vec<u8> },
}

/// Why a failed run of git failed: its trimmed standard error, or the exit
/// status when that is empty.
pub open spec fn failure_detail(status: Seq<char>, stderr: Seq<u8>) -> Seq<char> {
    let t = trim_ws(utf8_lossy(stderr));
    if t.len() == 0 {
        "git status exited with "@ + status
    } else {
        t
    }
}

/// The error that a run of git which did not succeed is reported with.
pub open spec fn run_error(run: GitRun) -> Seq<char> {
    match run {
        GitRun::NotStarted(e) => "failed to run git status: "@ + e@,
        GitRun::Exited { status, stderr, .. } => "failed to run git status: "@ + failure_detail(
            status@,
            stderr@,
        ),
    }
}

/// Whether git ran and exited successfully.
pub open spec fn run_succeeded(run: GitRun) -> bool {
    run matches GitRun::Exited { success: true, .. }
}

/// The standard output of a run of git (empty when it did not start).
pub open spec fn run_stdout(run: GitRun) -> Seq<u8> {
    match run {
        GitRun::NotStarted(_) => seq![],
        GitRun::Exited { stdout, .. } => stdout@,
    }
}

/// `snap` is the snapshot that reports the error `e` for the repository at
/// `repo` at the time `now`.
pub open spec fn is_error_snapshot(snap: StatusSnapshot, repo: Seq<char>, now: u64, e: Seq<char>) -> bool {
    &&& snap.repo_path@ == repo
    &&& snap.branch@ == "DETACHED"@
    &&& !snap.clean
    &&& snap.staged == 0
    &&& snap.unstaged == 0
    &&& snap.untracked == 0
    &&& snap.updated_unix_ms == now
    &&& snap.error@ == e
    &&& snap.entries@.len() == 0
}

/// `snap` is the snapshot read from one run of git: the parsed status when
/// git succeeded and its output parsed, otherwise a snapshot that carries
/// the error.
pub open spec fn status_of_run(snap: StatusSnapshot, repo: Seq<char>, run: GitRun, now: u64) -> bool {
    if !run_succeeded(run) {
        is_error_snapshot(snap, repo, now, run_error(run))
    } else {
        match parse_records(split_records(run_stdout(run)), initial_tally()) {
            Ok(t) => snapshot_of_tally(snap, repo, now, t),
            Err(e) => is_error_snapshot(snap, repo, now, e),
        }
    }
}

impl CliBackend {
    pub fn new() -> (b: Self) {
        CliBackend
    }

    /// The status of the repository at `repo_path` from one run of git, or
    /// the reason why there is none.
    pub fn read_status_inner(&self, repo_path: &str, run: GitRun, now_unix_ms: u64) -> (res: Result<
        StatusSnapshot,
        String,
    >)
        ensures
            run_succeeded(run) ==> parse_outcome(res, repo_path@, run_stdout(run), now_unix_ms),
            !run_succeeded(run) ==> (res matches Err(m) && m@ == run_error(run)),
    {
        match run {
            GitRun::NotStarted(e) => {
                let mut m = owned("failed to run git status: ");
                m.append(e.as_str());
                Err(m)
            },
            GitRun::Exited { success, status, stdout, stderr } => {
                if !success {
                    let text = to_lossy(stderr.as_slice());
                    let trimmed_text = trimmed(text.as_str());
                    let detail = if trimmed_text.as_str().unicode_len() == 0 {
                        let mut d = owned("git status exited with ");
                        d.append(status.as_str());
                        d
                    } else {
                        trimmed_text
                    };
                    let mut m = owned("failed to run git status: ");
                    m.append(detail.as_str());
                    Err(m)
                } else {
                    parse_porcelain_v2(repo_path, stdout.as_slice(), now_unix_ms)
                }
            },
        }
    }

    /// The status of the repository at `repo_path` from one run of git; when
    /// there is none, a snapshot that carries the error.
    pub fn read_status(&self, repo_path: &str, run: GitRun, now_unix_ms: u64) -> (snap:
        StatusSnapshot)
        ensures
            status_of_run(snap, repo_path@, run, now_unix_ms),
    {
        match self.read_status_inner(repo_path, run, now_unix_ms) {
            Ok(snapshot) => snapshot,
            Err(error) => StatusSnapshot {
                repo_path: owned(repo_path),
                branch: owned("DETACHED"),
                clean: false,
                staged: 0,
                unstaged: 0,
                untracked: 0,
                updated_unix_ms: now_unix_ms,
                error,
                entries: Vec::new(),
            },
        }
    }
}

} // verus!

verus! {

/// Whether an entry counts as staged: a conflict, or a code of exactly two
/// UTF-8 bytes whose first byte is not a space, untracked paths excepted.
pub open spec fn counts_as_staged(e: EntryView) -> bool {
    let b = encode_utf8(e.code);
    e.code != untracked_code() && (conflict_code(e.code) || (b.len() == 2 && b[0] != space()))
}

/// Whether an entry counts as unstaged: a conflict, or a code of exactly two
/// UTF-8 bytes whose second byte is not a space, untracked paths excepted.
pub open spec fn counts_as_unstaged(e: EntryView) -> bool {
    let b = encode_utf8(e.code);
    e.code != untracked_code() && (conflict_code(e.code) || (b.len() == 2 && b[1] != space()))
}

/// The property of being staged, as a predicate on entries.
pub open spec fn staged_pred() -> spec_fn(EntryView) -> bool {
    |e: EntryView| counts_as_staged(e)
}

/// The property of being unstaged, as a predicate on entries.
pub open spec fn unstaged_pred() -> spec_fn(EntryView) -> bool {
    |e: EntryView| counts_as_unstaged(e)
}

/// The property of being untracked, as a predicate on entries.
pub open spec fn untracked_pred() -> spec_fn(EntryView) -> bool {
    |e: EntryView| e.code == untracked_code()
}

/// The number of staged entries.
pub open spec fn staged_count(entries: Seq<EntryView>) -> nat {
    entries.filter(staged_pred()).len()
}

/// The number of unstaged entries.
pub open spec fn unstaged_count(entries: Seq<EntryView>) -> nat {
    entries.filter(unstaged_pred()).len()
}

/// The number of untracked entries.
pub open spec fn untracked_count(entries: Seq<EntryView>) -> nat {
    entries.filter(untracked_pred()).len()
}

/// The counters of a tally are the numbers of its staged, unstaged and
/// untracked entries.
pub open spec fn tally_consistent(t: Tally) -> bool {
    &&& t.staged == staged_count(t.entries)
    &&& t.unstaged == unstaged_count(t.entries)
    &&& t.untracked == untracked_count(t.entries)
}

proof fn lemma_add_entry_consistent(t: Tally, code: Seq<char>, path: Seq<char>)
    requires
        tally_consistent(t),
    ensures
        tally_consistent(add_entry(t, code, path)),
{
    let x = EntryView { path, code };
    t.entries.lemma_filter_len_push(staged_pred(), x);
    t.entries.lemma_filter_len_push(unstaged_pred(), x);
    t.entries.lemma_filter_len_push(untracked_pred(), x);
    if conflict_code(code) {
        assert(code != untracked_code()) by {
            if code == untracked_code() {
                assert(code[0] == '?');
            }
        }
    }
}

proof fn lemma_parse_records_consistent(recs: Seq<Seq<u8>>, t: Tally)
    requires
        tally_consistent(t),
    ensures
        parse_records(recs, t) matches Ok(t2) ==> tally_consistent(t2),
    decreases recs.len(),
{
    if recs.len() > 0 {
        let r = recs[0];
        let rest = recs.drop_first();
        let tag = BRANCH_HEAD_TAG.spec_bytes();
        if r.len() == 0 {
            lemma_parse_records_consistent(rest, t);
        } else if tag.len() <= r.len() && r.take(tag.len() as int) == tag {
            lemma_parse_records_consistent(
                rest,
                with_branch(t, branch_label(utf8_lossy(r.skip(tag.len() as int)))),
            );
        } else if r[0] == '1' as u8 || r[0] == 'u' as u8 {
            let n: nat = if r[0] == '1' as u8 { 9 } else { 10 };
            if let Some((c, p)) = code_and_path(r, n) {
                lemma_add_entry_consistent(t, utf8_lossy(c), utf8_lossy(p));
                lemma_parse_records_consistent(rest, add_entry(t, utf8_lossy(c), utf8_lossy(p)));
            }
        } else if r[0] == '2' as u8 {
            if let Some((c, p)) = code_and_path(r, 10) {
                if rest.len() > 0 {
                    let shown = utf8_lossy(rest[0]) + " -> "@ + utf8_lossy(p);
                    lemma_add_entry_consistent(t, utf8_lossy(c), shown);
                    lemma_parse_records_consistent(
                        rest.drop_first(),
                        add_entry(t, utf8_lossy(c), shown),
                    );
                }
            }
        } else if r[0] == '?' as u8 {
            if r.len() >= 2 && r[1] == space() {
                lemma_add_entry_consistent(t, untracked_code(), utf8_lossy(r.skip(2)));
                lemma_parse_records_consistent(
                    rest,
                    add_entry(t, untracked_code(), utf8_lossy(r.skip(2))),
                );
            }
        } else if r[0] == '!' as u8 {
            if r.len() >= 2 && r[1] == space() {
                lemma_add_entry_consistent(t, ignored_code(), utf8_lossy(r.skip(2)));
                lemma_parse_records_consistent(
                    rest,
                    add_entry(t, ignored_code(), utf8_lossy(r.skip(2))),
                );
            }
        } else {
            lemma_parse_records_consistent(rest, t);
        }
    }
}

/// Whatever git reports, the counters of the status that parsing it yields
/// are the numbers of its staged, unstaged and untracked entries.
pub proof fn law_parsed_counters_consistent(stdout: Seq<u8>)
    ensures
        parse_records(split_records(stdout), initial_tally()) matches Ok(t) ==> tally_consistent(t),
{
    reveal(Seq::filter);
    lemma_parse_records_consistent(split_records(stdout), initial_tally());
}

/// Entries that are a permutation of one another have the same numbers of
/// staged, unstaged and untracked entries.
proof fn lemma_same_counts_counters(a: Seq<EntryView>, b: Seq<EntryView>)
    requires
        same_counts(a, b),
    ensures
        staged_count(a) == staged_count(b),
        unstaged_count(a) == unstaged_count(b),
        untracked_count(a) == untracked_count(b),
{
    assert(a.filter(staged_pred()).len() == b.filter(staged_pred()).len());
    assert(a.filter(unstaged_pred()).len() == b.filter(unstaged_pred()).len());
    assert(a.filter(untracked_pred()).len() == b.filter(untracked_pred()).len());
}

/// The counters of a status parsed from git's output are the numbers of its
/// staged, unstaged and untracked entries.
pub proof fn law_parsed_snapshot_counts(
    res: Result<StatusSnapshot, String>,
    repo: Seq<char>,
    stdout: Seq<u8>,
    now: u64,
)
    requires
        parse_outcome(res, repo, stdout, now),
    ensures
        res matches Ok(snap) ==> {
            &&& snap.staged == staged_count(entry_views(snap.entries@))
            &&& snap.unstaged == unstaged_count(entry_views(snap.entries@))
            &&& snap.untracked == untracked_count(entry_views(snap.entries@))
        },
{
    law_parsed_counters_consistent(stdout);
    if let (Ok(snap), Ok(t)) = (res, parse_records(split_records(stdout), initial_tally())) {
        lemma_same_counts_counters(entry_views(snap.entries@), t.entries);
    }
}

proof fn lemma_parse_error_nonempty(recs: Seq<Seq<u8>>, t: Tally)
    ensures
        parse_records(recs, t) matches Err(e) ==> e.len() > 0,
    decreases recs.len(),
{
    reveal_strlit("invalid status record: ");
    reveal_strlit("missing original path for: ");
    reveal_strlit("invalid rename/copy record: ");
    reveal_strlit("invalid unmerged record: ");
    reveal_strlit("invalid untracked record: ");
    reveal_strlit("invalid ignored record: ");
    if recs.len() > 0 {
        let r = recs[0];
        let rest = recs.drop_first();
        let tag = BRANCH_HEAD_TAG.spec_bytes();
        if r.len() == 0 {
            lemma_parse_error_nonempty(rest, t);
        } else if tag.len() <= r.len() && r.take(tag.len() as int) == tag {
            lemma_parse_error_nonempty(
                rest,
                with_branch(t, branch_label(utf8_lossy(r.skip(tag.len() as int)))),
            );
        } else if r[0] == '1' as u8 || r[0] == 'u' as u8 {
            let n: nat = if r[0] == '1' as u8 { 9 } else { 10 };
            if let Some((c, p)) = code_and_path(r, n) {
                lemma_parse_error_nonempty(rest, add_entry(t, utf8_lossy(c), utf8_lossy(p)));
            }
        } else if r[0] == '2' as u8 {
            if let Some((c, p)) = code_and_path(r, 10) {
                if rest.len() > 0 {
                    let shown = utf8_lossy(rest[0]) + " -> "@ + utf8_lossy(p);
                    lemma_parse_error_nonempty(rest.drop_first(), add_entry(t, utf8_lossy(c), shown));
                }
            }
        } else if r[0] == '?' as u8 {
            if r.len() >= 2 && r[1] == space() {
                lemma_parse_error_nonempty(rest, add_entry(t, untracked_code(), utf8_lossy(r.skip(2))));
            }
        } else if r[0] == '!' as u8 {
            if r.len() >= 2 && r[1] == space() {
                lemma_parse_error_nonempty(rest, add_entry(t, ignored_code(), utf8_lossy(r.skip(2))));
            }
        } else {
            lemma_parse_error_nonempty(rest, t);
        }
    }
}

/// A snapshot read from a run of git carries an error exactly when git did
/// not succeed or its output did not parse; it is clean exactly when it has
/// neither entries nor an error; and its counters are the numbers of its
/// staged, unstaged and untracked entries, none above the number of entries.
pub proof fn law_snapshot_error_and_clean(snap: StatusSnapshot, repo: Seq<char>, run: GitRun, now: u64)
    requires
        status_of_run(snap, repo, run, now),
    ensures
        (snap.error@.len() == 0) <==> (run_succeeded(run) && parse_records(
            split_records(run_stdout(run)),
            initial_tally(),
        ) is Ok),
        snap.clean <==> (snap.entries@.len() == 0 && snap.error@.len() == 0),
        snap.staged == staged_count(entry_views(snap.entries@)),
        snap.unstaged == unstaged_count(entry_views(snap.entries@)),
        snap.untracked == untracked_count(entry_views(snap.entries@)),
        snap.staged <= snap.entries@.len(),
        snap.unstaged <= snap.entries@.len(),
        snap.untracked <= snap.entries@.len(),
{
    reveal_strlit("failed to run git status: ");
    reveal(Seq::filter);
    let ev = entry_views(snap.entries@);
    lemma_parse_error_nonempty(split_records(run_stdout(run)), initial_tally());
    law_parsed_counters_consistent(run_stdout(run));
    if run_succeeded(run) {
        if let Ok(t) = parse_records(split_records(run_stdout(run)), initial_tally()) {
            lemma_same_counts_counters(ev, t.entries);
        }
    }
    ev.lemma_filter_len(staged_pred());
    ev.lemma_filter_len(unstaged_pred());
    ev.lemma_filter_len(untracked_pred());
}

} // verus!

verus! {

/// Two snapshots that agree in every field, compared by value.
pub open spec fn same_snapshot(a: StatusSnapshot, b: StatusSnapshot) -> bool {
    &&& a.repo_path@ == b.repo_path@
    &&& a.branch@ == b.branch@
    &&& a.clean == b.clean
    &&& a.staged == b.staged
    &&& a.unstaged == b.unstaged
    &&& a.untracked == b.untracked
    &&& a.updated_unix_ms == b.updated_unix_ms
    &&& a.error@ == b.error@
    &&& entry_views(a.entries@) == entry_views(b.entries@)
}

/// Reading the status from a run of git gives, when git succeeded, exactly
/// the snapshot that parsing its output gives, and otherwise a snapshot that
/// carries the error: the one of parsing when the output did not parse, the
/// one of the run when git failed. It carries no error exactly when git
/// succeeded and its output parsed.
pub proof fn law_read_status_is_parse(
    snap: StatusSnapshot,
    res: Result<StatusSnapshot, String>,
    repo: Seq<char>,
    run: GitRun,
    now: u64,
)
    requires
        status_of_run(snap, repo, run, now),
        parse_outcome(res, repo, run_stdout(run), now),
    ensures
        (snap.error@.len() == 0) <==> (run_succeeded(run) && res is Ok),
        run_succeeded(run) ==> match res {
            Ok(s) => same_snapshot(snap, s),
            Err(m) => is_error_snapshot(snap, repo, now, m@),
        },
        !run_succeeded(run) ==> is_error_snapshot(snap, repo, now, run_error(run)),
{
    law_snapshot_error_and_clean(snap, repo, run, now);
    if run_succeeded(run) {
        if let (Ok(s), Ok(t)) = (res, parse_records(split_records(run_stdout(run)), initial_tally())) {
            law_stable_sort_unique(entry_views(snap.entries@), entry_views(s.entries@), t.entries);
        }
    }
}

} // verus!

verus! {

/// The number of spaces in `r`.
pub open spec fn space_count(r: Seq<u8>) -> nat
    decreases r.len(),
{
    if r.len() == 0 {
        0
    } else {
        space_count(r.drop_last()) + if r.last() == space() {
            1nat
        } else {
            0nat
        }
    }
}

proof fn lemma_space_count_span(r: Seq<u8>, p: int, q: int)
    requires
        0 <= p <= q <= r.len(),
        forall|k: int| p <= k < q ==> r[k] != space(),
    ensures
        space_count(r.take(q)) == space_count(r.take(p)),
    decreases q - p,
{
    if p < q {
        lemma_space_count_span(r, p, q - 1);
        assert(r.take(q).drop_last() =~= r.take(q - 1));
    }
}

proof fn lemma_space_count_monotone(r: Seq<u8>, p: int, q: int)
    requires
        0 <= p <= q <= r.len(),
    ensures
        space_count(r.take(p)) <= space_count(r.take(q)),
    decreases q - p,
{
    if p < q {
        lemma_space_count_monotone(r, p, q - 1);
        assert(r.take(q).drop_last() =~= r.take(q - 1));
    }
}

proof fn lemma_after_spaces_count(r: Seq<u8>, k: nat)
    requires
        after_spaces(r, k) is Some,
    ensures
        0 <= after_spaces(r, k)->0 <= r.len(),
        space_count(r.take(after_spaces(r, k)->0)) == k,
    decreases k,
{
    if k == 0 {
        assert(r.take(0) =~= Seq::<u8>::empty());
    } else {
        let i = after_spaces(r, (k - 1) as nat)->0;
        lemma_after_spaces_count(r, (k - 1) as nat);
        let j = find_from(r, space(), i);
        lemma_find_from_bounds(r, space(), i);
        lemma_space_count_span(r, i, j);
        assert(r.take(j + 1).drop_last() =~= r.take(j));
    }
}

proof fn lemma_after_spaces_none_count(r: Seq<u8>, k: nat)
    requires
        after_spaces(r, k) is None,
    ensures
        space_count(r) < k,
    decreases k,
{
    if k > 0 {
        match after_spaces(r, (k - 1) as nat) {
            Some(i) => {
                lemma_after_spaces_count(r, (k - 1) as nat);
                lemma_find_from_bounds(r, space(), i);
                lemma_space_count_span(r, i, r.len() as int);
                assert(r.take(r.len() as int) =~= r);
            },
            None => {
                lemma_after_spaces_none_count(r, (k - 1) as nat);
            },
        }
    }
}

/// A record has its `k`-th space exactly when it has at least `k` spaces.
pub proof fn law_after_spaces_exists(r: Seq<u8>, k: nat)
    ensures
        after_spaces(r, k) is Some <==> k <= space_count(r),
        after_spaces(r, k) matches Some(p) ==> {
            &&& 0 <= p <= r.len()
            &&& space_count(r.take(p)) == k
            &&& k > 0 ==> r[p - 1] == space()
        },
{
    match after_spaces(r, k) {
        Some(p) => {
            lemma_after_spaces_count(r, k);
            lemma_space_count_monotone(r, p, r.len() as int);
            assert(r.take(r.len() as int) =~= r);
            if k > 0 {
                lemma_after_spaces_grows(r, (k - 1) as nat);
            }
        },
        None => {
            lemma_after_spaces_none_count(r, k);
        },
    }
}

/// Splitting a record into at most `n` space-separated fields fails exactly
/// when it has fewer than `n - 1` spaces; otherwise the code is its second
/// field (the bytes between its first and second space) and the path is
/// what follows its `(n - 1)`-th space, to the end of the record.
pub proof fn law_code_and_path(r: Seq<u8>, n: nat)
    requires
        3 <= n,
    ensures
        code_and_path(r, n) is None <==> space_count(r) < n - 1,
        code_and_path(r, n) matches Some((c, p)) ==> {
            &&& !c.contains(space())
            &&& exists|f: Seq<u8>|
                !f.contains(space()) && #[trigger] r.take(f.len() + c.len() + 2int) == f + seq![space()]
                    + c + seq![space()]
            &&& p.len() < r.len()
            &&& p == r.skip(r.len() - p.len())
            &&& r[r.len() - p.len() - 1] == space()
            &&& space_count(r.take(r.len() - p.len())) == n - 1
        },
{
    law_after_spaces_exists(r, (n - 1) as nat);
    if let Some(q) = after_spaces(r, (n - 1) as nat) {
        if after_spaces(r, 2) is None {
            lemma_after_spaces_none(r, 2, (n - 1) as nat);
        }
        lemma_after_spaces_grows(r, 1);
        lemma_after_spaces_grows(r, 0);
        let i1 = after_spaces(r, 1)->0;
        let i2 = after_spaces(r, 2)->0;
        lemma_find_from_bounds(r, space(), 0);
        lemma_find_from_bounds(r, space(), i1);
        let f = r.take(i1 - 1);
        let c = r.subrange(i1, i2 - 1);
        assert(!f.contains(space())) by {
            if f.contains(space()) {
                let k = choose|k: int| 0 <= k < f.len() && f[k] == space();
                assert(r[k] == space());
            }
        }
        assert(!c.contains(space())) by {
            if c.contains(space()) {
                let k = choose|k: int| 0 <= k < c.len() && c[k] == space();
                assert(r[i1 + k] == space());
            }
        }
        assert(r.take(f.len() + c.len() + 2int) =~= f + seq![space()] + c + seq![space()]);
        assert(code_and_path(r, n) == Some((c, r.skip(q))));
        let p = r.skip(q);
        assert(p.len() < r.len());
        assert(r.skip(r.len() - p.len()) =~= p);
        assert(r.len() - p.len() == q);
    }
}

} // verus!

verus! {

/// Whether a record starts a rename or copy, whose original path is the
/// record after it.
pub open spec fn is_rename_record(r: Seq<u8>) -> bool {
    r.len() > 0 && r[0] == '2' as u8
}

/// Whether the parser passes over a record: it is empty, or it is no branch
/// header and starts with none of the bytes `1`, `2`, `u`, `?` and `!`.
pub open spec fn is_skipped_record(r: Seq<u8>) -> bool {
    let tag = BRANCH_HEAD_TAG.spec_bytes();
    ||| r.len() == 0
    ||| {
        &&& !(tag.len() <= r.len() && r.take(tag.len() as int) == tag)
        &&& r[0] != '1' as u8
        &&& r[0] != '2' as u8
        &&& r[0] != 'u' as u8
        &&& r[0] != '?' as u8
        &&& r[0] != '!' as u8
    }
}

/// Whether position `i` of `recs` is a record boundary at which a record can
/// be inserted without becoming the original path of a rename: the start,
/// or a position whose preceding record starts no rename.
pub open spec fn insertion_point(recs: Seq<Seq<u8>>, i: int) -> bool {
    &&& 0 <= i <= recs.len()
    &&& (i == 0 || !is_rename_record(recs[i - 1]))
}

/// Inserting a record that the parser passes over, at a record boundary
/// that does not follow a rename, changes nothing in what the records mean.
pub proof fn law_skipped_record_ignored(recs: Seq<Seq<u8>>, i: int, r: Seq<u8>, t: Tally)
    requires
        insertion_point(recs, i),
        is_skipped_record(r),
    ensures
        parse_records(recs.insert(i, r), t) == parse_records(recs, t),
    decreases recs.len(),
{
    let s = recs.insert(i, r);
    let tag = BRANCH_HEAD_TAG.spec_bytes();
    if i == 0 {
        assert(s[0] == r);
        assert(s.drop_first() =~= recs);
    } else {
        let r0 = recs[0];
        let rest = recs.drop_first();
        assert(s[0] == r0);
        assert(s.drop_first() =~= rest.insert(i - 1, r));
        if i - 1 > 0 {
            assert(rest[i - 2] == recs[i - 1]);
        }
        if r0.len() == 0 {
            law_skipped_record_ignored(rest, i - 1, r, t);
        } else if tag.len() <= r0.len() && r0.take(tag.len() as int) == tag {
            let b = branch_label(utf8_lossy(r0.skip(tag.len() as int)));
            law_skipped_record_ignored(rest, i - 1, r, with_branch(t, b));
        } else if r0[0] == '1' as u8 || r0[0] == 'u' as u8 {
            let n: nat = if r0[0] == '1' as u8 { 9 } else { 10 };
            if let Some((c, p)) = code_and_path(r0, n) {
                let t2 = add_entry(t, utf8_lossy(c), utf8_lossy(p));
                law_skipped_record_ignored(rest, i - 1, r, t2);
            }
        } else if r0[0] == '2' as u8 {
            assert(i >= 2);
            let rest2 = rest.drop_first();
            let s_rest = s.drop_first();
            assert(s_rest[0] == rest[0]);
            assert(s_rest.drop_first() =~= rest2.insert(i - 2, r));
            if i - 2 > 0 {
                assert(rest2[i - 3] == recs[i - 1]);
            }
            if let Some((c, p)) = code_and_path(r0, 10) {
                let shown = utf8_lossy(rest[0]) + " -> "@ + utf8_lossy(p);
                law_skipped_record_ignored(rest2, i - 2, r, add_entry(t, utf8_lossy(c), shown));
            }
        } else if r0[0] == '?' as u8 || r0[0] == '!' as u8 {
            if r0.len() >= 2 && r0[1] == space() {
                let code = if r0[0] == '?' as u8 { untracked_code() } else { ignored_code() };
                let t2 = add_entry(t, code, utf8_lossy(r0.skip(2)));
                law_skipped_record_ignored(rest, i - 1, r, t2);
            }
        } else {
            law_skipped_record_ignored(rest, i - 1, r, t);
        }
    }
}

} // verus!

verus! {

proof fn lemma_find_from_concat(x: Seq<u8>, y: Seq<u8>, v: u8, i: int)
    requires
        0 <= i <= x.len(),
    ensures
        find_from(x + y, v, i) == if find_from(x, v, i) < x.len() {
            find_from(x, v, i)
        } else {
            x.len() + find_from(y, v, 0)
        },
    decreases x.len() - i,
{
    let s = x + y;
    if i < x.len() {
        assert(s[i] == x[i]);
        if x[i] != v {
            lemma_find_from_concat(x, y, v, i + 1);
        }
    } else {
        lemma_find_from_skip(s, v, x.len() as int, 0);
        assert(s.skip(x.len() as int) =~= y);
    }
}

/// The records of two outputs joined by a NUL are the records of the first
/// followed by those of the second.
proof fn lemma_split_records_concat(x: Seq<u8>, q: Seq<u8>)
    ensures
        split_records(x + seq![0u8] + q) == split_records(x) + split_records(q),
    decreases x.len(),
{
    let s = x + seq![0u8] + q;
    assert(s =~= x + (seq![0u8] + q));
    lemma_find_from_concat(x, seq![0u8] + q, 0u8, 0);
    lemma_find_from_bounds(x, 0u8, 0);
    let j = find_from(x, 0u8, 0);
    if j < x.len() {
        assert(s.take(j) =~= x.take(j));
        assert(s.skip(j + 1) =~= x.skip(j + 1) + seq![0u8] + q);
        lemma_split_records_concat(x.skip(j + 1), q);
        assert(split_records(s) =~= split_records(x) + split_records(q));
    } else {
        assert((seq![0u8] + q)[0] == 0u8);
        assert(find_from(seq![0u8] + q, 0u8, 0) == 0);
        assert(s.take(j) =~= x);
        assert(s.skip(j + 1) =~= q);
        assert(split_records(s) =~= split_records(x) + split_records(q));
    }
}

/// Everything in two snapshots but the time at which they were taken agrees.
pub open spec fn same_status(a: StatusSnapshot, b: StatusSnapshot) -> bool {
    &&& a.repo_path@ == b.repo_path@
    &&& a.branch@ == b.branch@
    &&& a.clean == b.clean
    &&& a.staged == b.staged
    &&& a.unstaged == b.unstaged
    &&& a.untracked == b.untracked
    &&& a.error@ == b.error@
    &&& entry_views(a.entries@) == entry_views(b.entries@)
}

/// Parsing two outputs whose records mean the same gives the same status (or
/// the same error), whenever it is done.
proof fn lemma_same_meaning_same_outcome(
    res1: Result<StatusSnapshot, String>,
    res2: Result<StatusSnapshot, String>,
    repo: Seq<char>,
    out1: Seq<u8>,
    out2: Seq<u8>,
    now1: u64,
    now2: u64,
)
    requires
        parse_outcome(res1, repo, out1, now1),
        parse_outcome(res2, repo, out2, now2),
        parse_records(split_records(out1), initial_tally()) == parse_records(
            split_records(out2),
            initial_tally(),
        ),
    ensures
        match (res1, res2) {
            (Ok(a), Ok(b)) => same_status(a, b),
            (Err(m1), Err(m2)) => m1@ == m2@,
            _ => false,
        },
{
    if let (Ok(a), Ok(b), Ok(t)) = (res1, res2, parse_records(split_records(out1), initial_tally())) {
        law_stable_sort_unique(entry_views(a.entries@), entry_views(b.entries@), t.entries);
    }
}

/// Inserting into git's output, at a record boundary that does not follow a
/// rename, a record that the parser passes over (empty, or starting with
/// none of `1`, `2`, `u`, `?`, `!` and no branch header) leaves the parsed
/// status, or the error, as it was. `x` is the output up to the boundary: it
/// is empty or ends with a NUL, and the record it ends with starts no rename.
pub proof fn law_parse_ignores_skipped_record(
    x: Seq<u8>,
    r: Seq<u8>,
    q: Seq<u8>,
    repo: Seq<char>,
    with_record: Result<StatusSnapshot, String>,
    without_record: Result<StatusSnapshot, String>,
    now1: u64,
    now2: u64,
)
    requires
        x.len() == 0 || (x.last() == 0u8 && !is_rename_record(split_records(x.drop_last()).last())),
        !r.contains(0u8),
        is_skipped_record(r),
        parse_outcome(with_record, repo, x + r + seq![0u8] + q, now1),
        parse_outcome(without_record, repo, x + q, now2),
    ensures
        match (with_record, without_record) {
            (Ok(a), Ok(b)) => same_status(a, b),
            (Err(m1), Err(m2)) => m1@ == m2@,
            _ => false,
        },
{
    let out1 = x + r + seq![0u8] + q;
    let out2 = x + q;
    lemma_find_from_bounds(r, 0u8, 0);
    if find_from(r, 0u8, 0) < r.len() {
        assert(r.contains(0u8));
    }
    assert(split_records(r) == seq![r]);
    lemma_split_records_concat(r, q);
    if x.len() == 0 {
        assert(out1 =~= r + seq![0u8] + q);
        assert(out2 =~= q);
        assert(split_records(out1) =~= split_records(q).insert(0, r));
        law_skipped_record_ignored(split_records(q), 0, r, initial_tally());
    } else {
        let xp = x.drop_last();
        assert(out1 =~= xp + seq![0u8] + (r + seq![0u8] + q));
        assert(out2 =~= xp + seq![0u8] + q);
        lemma_split_records_concat(xp, r + seq![0u8] + q);
        lemma_split_records_concat(xp, q);
        let a = split_records(xp);
        let b = split_records(q);
        assert(a.len() > 0) by {
            reveal_with_fuel(split_records, 1);
        }
        assert((a + b).insert(a.len() as int, r) =~= a + (seq![r] + b));
        assert((a + b)[a.len() - 1] == a.last());
        law_skipped_record_ignored(a + b, a.len() as int, r, initial_tally());
    }
    lemma_same_meaning_same_outcome(with_record, without_record, repo, out1, out2, now1, now2);
}

/// Appending to git's output a NUL and then a record that the parser passes
/// over (empty, or starting with none of `1`, `2`, `u`, `?`, `!` and no
/// branch header) leaves the parsed status, or the error, as it was, when
/// the last record of the output starts no rename.
pub proof fn law_parse_ignores_appended_skipped_record(
    x: Seq<u8>,
    r: Seq<u8>,
    repo: Seq<char>,
    with_record: Result<StatusSnapshot, String>,
    without_record: Result<StatusSnapshot, String>,
    now1: u64,
    now2: u64,
)
    requires
        !is_rename_record(split_records(x).last()),
        !r.contains(0u8),
        is_skipped_record(r),
        parse_outcome(with_record, repo, x + seq![0u8] + r, now1),
        parse_outcome(without_record, repo, x, now2),
    ensures
        match (with_record, without_record) {
            (Ok(a), Ok(b)) => same_status(a, b),
            (Err(m1), Err(m2)) => m1@ == m2@,
            _ => false,
        },
{
    lemma_find_from_bounds(r, 0u8, 0);
    if find_from(r, 0u8, 0) < r.len() {
        assert(r.contains(0u8));
    }
    assert(split_records(r) == seq![r]);
    lemma_split_records_concat(x, r);
    let a = split_records(x);
    assert(a.len() > 0) by {
        reveal_with_fuel(split_records, 1);
    }
    assert(a + seq![r] =~= a.insert(a.len() as int, r));
    law_skipped_record_ignored(a, a.len() as int, r, initial_tally());
    lemma_same_meaning_same_outcome(
        with_record,
        without_record,
        repo,
        x + seq![0u8] + r,
        x,
        now1,
        now2,
    );
}

} // verus!

verus! {

/// The arguments, after `git -C <repository>`, that ask git for the status
/// in the form that [`parse_porcelain_v2`] reads.
pub open spec fn status_command_args() -> Seq<Seq<char>> {
    seq!["status"@, "--porcelain=v2"@, "--branch"@, "-z"@, "--untracked-files=all"@]
}

impl CliBackend {
    /// The arguments, after `git -C <repository>`, of the status command.
    pub fn status_args(&self) -> (a: Vec<&'static str>)
        ensures
            a@.map_values(|s: &'static str| s@) == status_command_args(),
    {
        let mut a: Vec<&'static str> = Vec::new();
        a.push("status");
        a.push("--porcelain=v2");
        a.push("--branch");
        a.push("-z");
        a.push("--untracked-files=all");
        assert(a@.map_values(|s: &'static str| s@) =~= status_command_args());
        a
    }
}

} // verus!

verus! {

/// A branch name other than git's two placeholders is shown as it is.
pub proof fn law_branch_label_keeps_names(head: Seq<char>)
    requires
        head != "(detached)"@,
        head != "(unknown)"@,
    ensures
        branch_label(head) == head,
{
}

/// A record `# branch.head <name>` sets the branch to the decoded name,
/// unchanged unless it is one of git's two placeholders, and leaves the
/// rest of the tally as it was.
pub proof fn law_branch_header_sets_branch(name: Seq<u8>, rest: Seq<Seq<u8>>, t: Tally)
    requires
        utf8_lossy(name) != "(detached)"@,
        utf8_lossy(name) != "(unknown)"@,
    ensures
        parse_records(seq![BRANCH_HEAD_TAG.spec_bytes() + name] + rest, t) == parse_records(
            rest,
            Tally {
                branch: utf8_lossy(name),
                staged: t.staged,
                unstaged: t.unstaged,
                untracked: t.untracked,
                entries: t.entries,
            },
        ),
{
    reveal_strlit("# branch.head ");
    let tag = BRANCH_HEAD_TAG.spec_bytes();
    let r = tag + name;
    let recs = seq![r] + rest;
    assert(recs[0] == r);
    assert(recs.drop_first() =~= rest);
    assert(r.take(tag.len() as int) =~= tag);
    assert(r.skip(tag.len() as int) =~= name);
    assert(tag.len() > 0);
}

} // verus!
