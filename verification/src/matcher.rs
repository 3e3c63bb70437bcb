//! Knuth-Morris-Pratt exact string search.
//!
//! `knuth_morris_pratt` reports every starting offset at which a pattern
//! occurs in a text, overlapping occurrences included, in left-to-right
//! order, in a single pass over the text. The precomputed failure table
//! records for each pattern prefix the length of its longest proper border
//! (a prefix that is also a suffix), which lets the scan resume after a
//! mismatch without re-reading text characters.

use vstd::prelude::*;

verus! {

/// `pat` occurs in `text` starting at position `s`.
pub open spec fn match_at(text: Seq<char>, pat: Seq<char>, s: int) -> bool {
    &&& 0 <= s
    &&& s + pat.len() <= text.len()
    &&& forall|t: int| 0 <= t < pat.len() ==> text[s + t] == #[trigger] pat[t]
}

/// The `k`-prefix of `pat` is a border of the `n`-prefix of `pat`:
/// it is also a suffix of that `n`-prefix.
pub open spec fn is_border(pat: Seq<char>, n: int, k: int) -> bool {
    &&& 0 <= k <= n <= pat.len()
    &&& forall|t: int| 0 <= t < k ==> #[trigger] pat[t] == pat[n - k + t]
}

/// The `k`-prefix of `pat` is a suffix of the first `i` characters of `text`.
pub open spec fn tail_match(text: Seq<char>, pat: Seq<char>, i: int, k: int) -> bool {
    &&& 0 <= k <= pat.len()
    &&& k <= i <= text.len()
    &&& forall|t: int| 0 <= t < k ==> text[i - k + t] == #[trigger] pat[t]
}

/// Entry `n - 1` of the failure table holds the length of the longest
/// proper border of the pattern prefix of length `n`.
pub open spec fn entry_good(pat: Seq<char>, next: Seq<usize>, n: int) -> bool {
    &&& next[n - 1] < n
    &&& is_border(pat, n, next[n - 1] as int)
    &&& forall|k: int| next[n - 1] < k < n ==> !is_border(pat, n, k)
}

/// The failure table is complete and every entry is correct.
pub open spec fn table_good(pat: Seq<char>, next: Seq<usize>) -> bool {
    &&& next.len() == pat.len()
    &&& forall|n: int| 1 <= n <= next.len() ==> #[trigger] entry_good(pat, next, n)
}

/// A border of a border is a border: transitivity through the `k`-prefix.
proof fn lemma_border_trans(pat: Seq<char>, n: int, k: int, l: int)
    requires
        is_border(pat, n, k),
        is_border(pat, k, l),
    ensures
        is_border(pat, n, l),
{
    assert forall|t: int| 0 <= t < l implies #[trigger] pat[t] == pat[n - l + t] by {
        assert(pat[t] == pat[k - l + t]);
        assert(pat[k - l + t] == pat[n - k + (k - l + t)]);
    }
}

/// Of two borders of the same prefix, the shorter is a border of the longer.
proof fn lemma_border_nest(pat: Seq<char>, n: int, k: int, l: int)
    requires
        is_border(pat, n, k),
        is_border(pat, n, l),
        l <= k,
    ensures
        is_border(pat, k, l),
{
    assert forall|t: int| 0 <= t < l implies #[trigger] pat[t] == pat[k - l + t] by {
        assert(pat[t] == pat[n - l + t]);
        assert(pat[k - l + t] == pat[n - k + (k - l + t)]);
    }
}

/// Of two pattern prefixes that both end at text position `i`, the shorter
/// is a border of the longer.
proof fn lemma_tail_nest(text: Seq<char>, pat: Seq<char>, i: int, k: int, l: int)
    requires
        tail_match(text, pat, i, k),
        tail_match(text, pat, i, l),
        l <= k,
    ensures
        is_border(pat, k, l),
{
    assert forall|t: int| 0 <= t < l implies #[trigger] pat[t] == pat[k - l + t] by {
        assert(text[i - l + t] == pat[t]);
        assert(text[i - k + (k - l + t)] == pat[k - l + t]);
    }
}

/// A border of a prefix that ends at text position `i` also ends there.
proof fn lemma_border_tail(text: Seq<char>, pat: Seq<char>, i: int, k: int, l: int)
    requires
        tail_match(text, pat, i, k),
        is_border(pat, k, l),
    ensures
        tail_match(text, pat, i, l),
{
    assert forall|t: int| 0 <= t < l implies text[i - l + t] == #[trigger] pat[t] by {
        assert(pat[t] == pat[k - l + t]);
        assert(text[i - k + (k - l + t)] == pat[k - l + t]);
    }
}

/// Build the failure table: `next[i]` is the length of the longest proper
/// border of the pattern prefix of length `i + 1`.
fn build_table(pat: &Vec<char>) -> (next: Vec<usize>)
    requires
        pat@.len() >= 1,
    ensures
        table_good(pat@, next@),
{
    let mut next: Vec<usize> = Vec::new();
    next.push(0);
    proof {
        assert(is_border(pat@, 1, 0));
        assert(entry_good(pat@, next@, 1));
    }
    let mut i: usize = 1;
    while i < pat.len()
        invariant
            1 <= i <= pat@.len(),
            next@.len() == i,
            forall|n: int| 1 <= n <= i ==> #[trigger] entry_good(pat@, next@, n),
        decreases pat@.len() - i,
    {
        let ghost ip1: int = i + 1;
        let mut j: usize = next[i - 1];
        proof {
            assert(entry_good(pat@, next@, i as int));
            assert forall|b: int| 0 < b <= i && #[trigger] is_border(pat@, ip1, b) implies b <= j
                + 1 by {
                assert(is_border(pat@, i as int, b - 1)) by {
                    assert forall|t: int| 0 <= t < b - 1 implies #[trigger] pat@[t] == pat@[i - (b
                        - 1) + t] by {
                        assert(pat@[t] == pat@[ip1 - b + t]);
                    }
                }
                if b - 1 > next@[i - 1] {
                    assert(!is_border(pat@, i as int, b - 1));
                }
            }
        }
        while j > 0 && pat[i] != pat[j]
            invariant
                1 <= i < pat@.len(),
                ip1 == i + 1,
                next@.len() == i,
                forall|n: int| 1 <= n <= i ==> #[trigger] entry_good(pat@, next@, n),
                j < i,
                is_border(pat@, i as int, j as int),
                forall|b: int| 0 < b <= i && #[trigger] is_border(pat@, ip1, b) ==> b <= j + 1,
            decreases j,
        {
            let jn = next[j - 1];
            proof {
                assert(entry_good(pat@, next@, j as int));
                lemma_border_trans(pat@, i as int, j as int, jn as int);
                assert forall|b: int| 0 < b <= i && #[trigger] is_border(pat@, ip1, b) implies b
                    <= jn + 1 by {
                    // The border cannot extend through the mismatched character.
                    if b == j + 1 {
                        assert(pat@[b - 1] == pat@[ip1 - b + (b - 1)]);
                        assert(false);
                    }
                    assert(is_border(pat@, i as int, b - 1)) by {
                        assert forall|t: int| 0 <= t < b - 1 implies #[trigger] pat@[t] == pat@[i
                            - (b - 1) + t] by {
                            assert(pat@[t] == pat@[ip1 - b + t]);
                        }
                    }
                    lemma_border_nest(pat@, i as int, j as int, b - 1);
                    if b - 1 > next@[j - 1] {
                        assert(!is_border(pat@, j as int, b - 1));
                    }
                }
            }
            j = jn;
        }
        let e: usize = if pat[i] == pat[j] {
            j + 1
        } else {
            j
        };
        proof {
            let nx = next@.push(e);
            if pat@[i as int] == pat@[j as int] {
                assert(is_border(pat@, ip1, j + 1)) by {
                    assert forall|t: int| 0 <= t < j + 1 implies #[trigger] pat@[t] == pat@[ip1 -
                        (j + 1) + t] by {
                        if t < j {
                            assert(pat@[t] == pat@[i - j + t]);
                        }
                    }
                }
                assert forall|k: int| nx[ip1 - 1] < k < ip1 implies !is_border(pat@, ip1, k) by {
                    if is_border(pat@, ip1, k) {
                        assert(k <= j + 1);
                    }
                }
                assert(entry_good(pat@, nx, ip1));
            } else {
                assert(j == 0);
                assert(is_border(pat@, ip1, 0));
                assert forall|k: int| nx[ip1 - 1] < k < ip1 implies !is_border(pat@, ip1, k) by {
                    if is_border(pat@, ip1, k) {
                        assert(k <= 1);
                        assert(pat@[0] == pat@[ip1 - 1 + 0]);
                        assert(false);
                    }
                }
                assert(entry_good(pat@, nx, ip1));
            }
            assert forall|n: int| 1 <= n <= ip1 implies #[trigger] entry_good(pat@, nx, n) by {
                if n <= i {
                    assert(entry_good(pat@, next@, n));
                }
            }
        }
        next.push(e);
        i = i + 1;
    }
    next
}

/// The starting offsets of every occurrence of `pat` that ends at or before
/// position `e` of `text`, in increasing order. An empty pattern is never
/// considered found.
pub open spec fn offsets_up_to(text: Seq<char>, pat: Seq<char>, e: int) -> Seq<int>
    decreases e,
{
    if pat.len() == 0 || e < pat.len() {
        Seq::empty()
    } else if match_at(text, pat, e - pat.len()) {
        offsets_up_to(text, pat, e - 1).push(e - pat.len())
    } else {
        offsets_up_to(text, pat, e - 1)
    }
}

/// The starting offsets of every occurrence of `pat` in `text`, in
/// increasing order.
pub open spec fn kmp_offsets(text: Seq<char>, pat: Seq<char>) -> Seq<int> {
    offsets_up_to(text, pat, text.len() as int)
}

/// A sequence of machine-size offsets, read as mathematical integers.
pub open spec fn view_as_ints(v: Seq<usize>) -> Seq<int> {
    v.map_values(|o: usize| o as int)
}

/// An occurrence is exactly an equal subrange of the text.
pub proof fn lemma_match_at_subrange(text: Seq<char>, pat: Seq<char>, s: int)
    requires
        0 <= s,
        s + pat.len() <= text.len(),
    ensures
        match_at(text, pat, s) <==> text.subrange(s, s + pat.len() as int) =~= pat,
{
    if match_at(text, pat, s) {
        assert(text.subrange(s, s + pat.len() as int) =~= pat);
    }
    if text.subrange(s, s + pat.len() as int) =~= pat {
        assert forall|t: int| 0 <= t < pat.len() implies text[s + t] == #[trigger] pat[t] by {
            assert(text.subrange(s, s + pat.len() as int)[t] == text[s + t]);
        }
    }
}

/// Soundness of the recorded offsets: every one is a real occurrence that
/// ends at or before `e`, and they are strictly increasing.
pub proof fn lemma_offsets_sound(text: Seq<char>, pat: Seq<char>, e: int)
    ensures
        forall|x: int| 0 <= x < offsets_up_to(text, pat, e).len() ==> match_at(
            text,
            pat,
            #[trigger] offsets_up_to(text, pat, e)[x],
        ) && offsets_up_to(text, pat, e)[x] + pat.len() <= e,
        forall|x: int, y: int| 0 <= x < y < offsets_up_to(text, pat, e).len() ==> offsets_up_to(
            text,
            pat,
            e,
        )[x] < offsets_up_to(text, pat, e)[y],
    decreases (if e < 0 { 0int } else { e }),
{
    if pat.len() == 0 || e < pat.len() {
    } else {
        lemma_offsets_sound(text, pat, e - 1);
        let prev = offsets_up_to(text, pat, e - 1);
        let cur = offsets_up_to(text, pat, e);
        if match_at(text, pat, e - pat.len()) {
            assert(cur == prev.push(e - pat.len()));
            assert forall|x: int| 0 <= x < cur.len() implies match_at(
                text,
                pat,
                #[trigger] cur[x],
            ) && cur[x] + pat.len() <= e by {
                if x < prev.len() {
                    assert(cur[x] == prev[x]);
                } else {
                    assert(cur[x] == e - pat.len());
                }
            }
            assert forall|x: int, y: int| 0 <= x < y < cur.len() implies cur[x] < cur[y] by {
                if y < prev.len() {
                    assert(prev[x] < prev[y]);
                } else {
                    assert(cur[x] == prev[x] && prev[x] + pat.len() <= e - 1);
                }
            }
        }
    }
}

/// Completeness of the recorded offsets: every occurrence that ends at or
/// before `e` is recorded.
pub proof fn lemma_offsets_complete(text: Seq<char>, pat: Seq<char>, e: int, s: int)
    requires
        pat.len() > 0,
        match_at(text, pat, s),
        s + pat.len() <= e,
    ensures
        offsets_up_to(text, pat, e).contains(s),
    decreases e,
{
    let cur = offsets_up_to(text, pat, e);
    if s + pat.len() == e {
        assert(cur[cur.len() - 1] == s);
    } else {
        lemma_offsets_complete(text, pat, e - 1, s);
        let prev = offsets_up_to(text, pat, e - 1);
        let x = choose|x: int| 0 <= x < prev.len() && prev[x] == s;
        assert(cur[x] == s);
    }
}

/// Run the table-driven scan of `text`, reporting each occurrence of `pat`
/// as it is completed.
fn kmp_search(text: &Vec<char>, pat: &Vec<char>, next: &Vec<usize>) -> (res: Vec<usize>)
    requires
        pat@.len() >= 1,
        table_good(pat@, next@),
    ensures
        view_as_ints(res@) == kmp_offsets(text@, pat@),
{
    let m = pat.len();
    let mut res: Vec<usize> = Vec::new();
    let mut j: usize = 0;
    let mut i: usize = 0;
    proof {
        assert(view_as_ints(res@) =~= offsets_up_to(text@, pat@, 0));
    }
    while i < text.len()
        invariant
            m == pat@.len(),
            1 <= m,
            next@.len() == m,
            table_good(pat@, next@),
            i <= text@.len(),
            j < m,
            tail_match(text@, pat@, i as int, j as int),
            forall|k: int| j < k < m ==> !#[trigger] tail_match(text@, pat@, i as int, k),
            view_as_ints(res@) == offsets_up_to(text@, pat@, i as int),
        decreases text@.len() - i,
    {
        let ghost ii: int = i as int;
        let ghost ip1: int = ii + 1;
        let c = text[i];
        proof {
            assert forall|k: int|
                0 < k <= m && #[trigger] tail_match(text@, pat@, ip1, k) implies k <= j + 1 by {
                assert(tail_match(text@, pat@, ii, k - 1)) by {
                    assert forall|t: int| 0 <= t < k - 1 implies text@[ii - (k - 1) + t]
                        == #[trigger] pat@[t] by {
                        assert(text@[ip1 - k + t] == pat@[t]);
                    }
                }
                if j + 1 < k {
                    assert(!tail_match(text@, pat@, ii, k - 1));
                    assert(false);
                }
            }
        }
        while j > 0 && c != pat[j]
            invariant
                m == pat@.len(),
                1 <= m,
                next@.len() == m,
                table_good(pat@, next@),
                i < text@.len(),
                ii == i as int,
                ip1 == ii + 1,
                c == text@[ii],
                j < m,
                tail_match(text@, pat@, ii, j as int),
                forall|k: int| 0 < k <= m && #[trigger] tail_match(text@, pat@, ip1, k) ==> k <= j
                    + 1,
            decreases j,
        {
            let jn = next[j - 1];
            proof {
                assert(entry_good(pat@, next@, j as int));
                lemma_border_tail(text@, pat@, ii, j as int, jn as int);
                assert forall|k: int|
                    0 < k <= m && #[trigger] tail_match(text@, pat@, ip1, k) implies k <= jn
                    + 1 by {
                    if k == j + 1 {
                        assert(text@[ip1 - k + (k - 1)] == pat@[k - 1]);
                        assert(false);
                    }
                    assert(tail_match(text@, pat@, ii, k - 1)) by {
                        assert forall|t: int| 0 <= t < k - 1 implies text@[ii - (k - 1) + t]
                            == #[trigger] pat@[t] by {
                            assert(text@[ip1 - k + t] == pat@[t]);
                        }
                    }
                    lemma_tail_nest(text@, pat@, ii, j as int, k - 1);
                    if k - 1 > next@[j - 1] {
                        assert(!is_border(pat@, j as int, k - 1));
                    }
                }
            }
            j = jn;
        }
        let matched = c == pat[j];
        proof {
            if matched {
                assert(tail_match(text@, pat@, ip1, j + 1)) by {
                    assert forall|t: int| 0 <= t < j + 1 implies text@[ip1 - (j + 1) + t]
                        == #[trigger] pat@[t] by {
                        if t < j {
                            assert(text@[ii - j + t] == pat@[t]);
                        }
                    }
                }
            }
        }
        if matched {
            j = j + 1;
        }
        proof {
            assert forall|k: int| (j as int) < k <= m implies !#[trigger] tail_match(
                text@,
                pat@,
                ip1,
                k,
            ) by {
                if tail_match(text@, pat@, ip1, k) {
                    if !matched && k == 1 {
                        assert(text@[ip1 - 1 + 0] == pat@[0]);
                    }
                    assert(false);
                }
            }
        }
        if j == m {
            proof {
                assert(tail_match(text@, pat@, ip1, m as int));
                assert(match_at(text@, pat@, ip1 - m)) by {
                    assert forall|t: int| 0 <= t < m implies text@[(ip1 - m) + t] == #[trigger] pat@[t] by {
                        assert(text@[ip1 - m + t] == pat@[t]);
                    }
                }
            }
            res.push(i + 1 - m);
            proof {
                assert(view_as_ints(res@) =~= offsets_up_to(text@, pat@, ip1));
            }
            j = next[m - 1];
            proof {
                assert(entry_good(pat@, next@, m as int));
                lemma_border_tail(text@, pat@, ip1, m as int, next@[m - 1] as int);
                assert forall|k: int| (j as int) < k < m implies !#[trigger] tail_match(
                    text@,
                    pat@,
                    ip1,
                    k,
                ) by {
                    if tail_match(text@, pat@, ip1, k) {
                        lemma_tail_nest(text@, pat@, ip1, m as int, k);
                        assert(!is_border(pat@, m as int, k));
                        assert(false);
                    }
                }
            }
        } else {
            proof {
                if ip1 >= m && match_at(text@, pat@, ip1 - m) {
                    assert(tail_match(text@, pat@, ip1, m as int)) by {
                        assert forall|t: int| 0 <= t < m implies text@[ip1 - m + t]
                            == #[trigger] pat@[t] by {
                            assert(text@[(ip1 - m) + t] == pat@[t]);
                        }
                    }
                    assert(false);
                }
                assert(view_as_ints(res@) =~= offsets_up_to(text@, pat@, ip1));
            }
        }
        i = i + 1;
    }
    res
}

/// All starting offsets at which `pat` occurs in `text`, in left-to-right
/// order, overlapping occurrences included.
pub fn find_all(text: &Vec<char>, pat: &Vec<char>) -> (res: Vec<usize>)
    ensures
        view_as_ints(res@) == kmp_offsets(text@, pat@),
{
    if text.len() == 0 || pat.len() == 0 {
        proof {
            assert(kmp_offsets(text@, pat@) =~= Seq::<int>::empty());
            assert(view_as_ints(Seq::<usize>::empty()) =~= Seq::<int>::empty());
        }
        Vec::new()
    } else {
        let next = build_table(pat);
        kmp_search(text, pat, &next)
    }
}

/// All starting offsets at which `patten` occurs in `st`, in left-to-right
/// order, overlapping occurrences included. An empty text or an empty
/// pattern yields no offsets: an empty pattern is never considered found.
pub fn knuth_morris_pratt(st: String, patten: String) -> (res: Vec<usize>)
    ensures
        view_as_ints(res@) == kmp_offsets(st@, patten@),
        forall|x: int| 0 <= x < res@.len() ==> match_at(
            st@,
            patten@,
            (#[trigger] res@[x]) as int,
        ),
        forall|s: int| patten@.len() > 0 && #[trigger] match_at(st@, patten@, s) ==> exists|x: int|
            0 <= x < res@.len() && res@[x] == s,
        forall|x: int, y: int| 0 <= x < y < res@.len() ==> res@[x] < res@[y],
        st@.len() == 0 || patten@.len() == 0 ==> res@.len() == 0,
{
    let text = crate::text::chars_of(st.as_str());
    let pattern = crate::text::chars_of(patten.as_str());
    let res: Vec<usize> = find_all(&text, &pattern);
    proof {
        let offs = kmp_offsets(st@, patten@);
        lemma_offsets_sound(st@, patten@, st@.len() as int);
        assert forall|x: int| 0 <= x < res@.len() implies match_at(
            st@,
            patten@,
            (#[trigger] res@[x]) as int,
        ) by {
            assert(view_as_ints(res@)[x] == res@[x] as int);
        }
        assert forall|s: int|
            patten@.len() > 0 && #[trigger] match_at(st@, patten@, s) implies exists|x: int|
            0 <= x < res@.len() && res@[x] == s by {
            lemma_offsets_complete(st@, patten@, st@.len() as int, s);
            let x = choose|x: int| 0 <= x < offs.len() && offs[x] == s;
            assert(view_as_ints(res@)[x] == res@[x] as int);
            assert(res@[x] == s);
        }
        assert forall|x: int, y: int| 0 <= x < y < res@.len() implies res@[x] < res@[y] by {
            assert(view_as_ints(res@)[x] == res@[x] as int);
            assert(view_as_ints(res@)[y] == res@[y] as int);
        }
    }
    res
}

} // verus!
