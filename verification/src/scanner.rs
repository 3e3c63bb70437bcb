//! The line scanner: splits a document into lines and keeps the lines in
//! which a query occurs, in their original order, matching either exactly or
//! after folding both the query and each line to lowercase.
//!
//! A line ends at a line feed or at a carriage return followed by a line
//! feed; the terminator does not belong to the line, and a trailing
//! terminator produces no extra empty final line. A document without a
//! terminator is itself a single line.

use vstd::prelude::*;

use crate::matcher::find_all;
use crate::matcher::kmp_offsets;
use crate::matcher::lemma_offsets_complete;
use crate::matcher::lemma_offsets_sound;
use crate::matcher::match_at;
use crate::matcher::view_as_ints;
use crate::text::chars_of;
use crate::text::lower_of;
use crate::text::lowercase;
use crate::text::string_from_chars;

verus! {

/// The position of the first line feed in `text`, or `text.len()` if there
/// is none.
pub open spec fn first_newline(text: Seq<char>) -> int
    decreases text.len(),
{
    if text.len() == 0 {
        0
    } else if text[0] == '\n' {
        0
    } else {
        1 + first_newline(text.skip(1))
    }
}

/// The position of the first line feed is determined by its witnesses: no
/// line feed before `k`, and one at `k` unless `k` is the length.
pub proof fn lemma_first_newline_at(text: Seq<char>, k: int)
    requires
        0 <= k <= text.len(),
        forall|t: int| 0 <= t < k ==> #[trigger] text[t] != '\n',
        k < text.len() ==> text[k] == '\n',
    ensures
        first_newline(text) == k,
    decreases k,
{
    if k == 0 {
    } else {
        assert(text[0] != '\n');
        let rest = text.skip(1);
        assert forall|t: int| 0 <= t < k - 1 implies #[trigger] rest[t] != '\n' by {
            assert(text[t + 1] != '\n');
        }
        if k - 1 < rest.len() {
            assert(rest[k - 1] == text[k]);
        }
        lemma_first_newline_at(rest, k - 1);
    }
}

/// A line with its terminator removed: a carriage return that stood right
/// before the line feed goes with the terminator.
pub open spec fn strip_cr(line: Seq<char>) -> Seq<char> {
    if line.len() > 0 && line[line.len() - 1] == '\r' {
        line.drop_last()
    } else {
        line
    }
}

/// The lines of a document, in order, without their terminators.
pub open spec fn lines_of(text: Seq<char>) -> Seq<Seq<char>>
    decreases text.len(),
{
    if text.len() == 0 {
        Seq::empty()
    } else {
        let f = first_newline(text);
        if 0 <= f < text.len() {
            seq![strip_cr(text.take(f))] + lines_of(text.skip(f + 1))
        } else {
            seq![text]
        }
    }
}

/// Split a document into its lines.
pub fn split_lines(text: &Vec<char>) -> (lines: Vec<Vec<char>>)
    ensures
        lines.deep_view() == lines_of(text@),
{
    let mut lines: Vec<Vec<char>> = Vec::new();
    let mut cur: Vec<char> = Vec::new();
    let mut p: usize = 0;
    proof {
        assert(text@.skip(0) =~= text@);
        assert(lines.deep_view() =~~= Seq::<Seq<char>>::empty());
        assert(lines.deep_view() + lines_of(text@) =~= lines_of(text@));
    }
    while p < text.len()
        invariant
            p <= text@.len(),
            cur@.len() <= p,
            cur@ == text@.subrange(p - cur@.len(), p as int),
            forall|t: int| 0 <= t < cur@.len() ==> #[trigger] cur@[t] != '\n',
            lines_of(text@) == lines.deep_view() + lines_of(text@.skip(p - cur@.len())),
        decreases text@.len() - p,
    {
        let ghost start: int = p - cur@.len();
        let ghost rest = text@.skip(start);
        let c = text[p];
        if c == '\n' {
            proof {
                assert forall|t: int| 0 <= t < cur@.len() implies #[trigger] rest[t] != '\n' by {
                    assert(rest[t] == text@[start + t]);
                    assert(cur@[t] == text@[start + t]);
                }
                assert(rest[cur@.len() as int] == text@[p as int]);
                lemma_first_newline_at(rest, cur@.len() as int);
                assert(rest.take(cur@.len() as int) =~= cur@);
                assert(rest.skip(cur@.len() as int + 1) =~= text@.skip(p + 1));
                assert(lines_of(rest) == seq![strip_cr(cur@)] + lines_of(text@.skip(p + 1)));
            }
            let ghost full_line = cur@;
            if cur.len() > 0 && cur[cur.len() - 1] == '\r' {
                cur.pop();
            }
            proof {
                assert(cur@ == strip_cr(full_line));
            }
            let ghost old_deep = lines.deep_view();
            lines.push(cur);
            cur = Vec::new();
            proof {
                assert(lines.deep_view() =~~= old_deep.push(strip_cr(full_line)));
                assert(old_deep + (seq![strip_cr(full_line)] + lines_of(text@.skip(p + 1)))
                    =~= lines.deep_view() + lines_of(text@.skip(p + 1)));
            }
        } else {
            cur.push(c);
            proof {
                assert(cur@ =~= text@.subrange(start, p + 1));
            }
        }
        p = p + 1;
    }
    if cur.len() > 0 {
        let ghost start: int = p - cur@.len();
        let ghost rest = text@.skip(start);
        proof {
            assert forall|t: int| 0 <= t < cur@.len() implies #[trigger] rest[t] != '\n' by {
                assert(rest[t] == text@[start + t]);
                assert(cur@[t] == text@[start + t]);
            }
            lemma_first_newline_at(rest, cur@.len() as int);
            assert(rest =~= cur@);
            assert(lines_of(rest) == seq![cur@]);
        }
        let ghost full_line = cur@;
        let ghost old_deep = lines.deep_view();
        lines.push(cur);
        proof {
            assert(lines.deep_view() =~~= old_deep.push(full_line));
            assert(old_deep + seq![full_line] =~= lines.deep_view());
        }
    } else {
        proof {
            assert(text@.skip(p as int) =~= Seq::<char>::empty());
            assert(lines.deep_view() + lines_of(text@.skip(p as int)) =~= lines.deep_view());
        }
    }
    lines
}

/// `q` occurs somewhere in `line`; an empty query matches no line.
pub open spec fn line_matches(line: Seq<char>, q: Seq<char>) -> bool {
    q.len() > 0 && exists|s: int| match_at(line, q, s)
}

/// Whether a line is kept by the case-sensitive search for `q`.
pub open spec fn line_pred(q: Seq<char>) -> spec_fn(Seq<char>) -> bool {
    |l: Seq<char>| line_matches(l, q)
}

/// Whether a line is kept by the case-insensitive search for `q`.
pub open spec fn ci_line_pred(q: Seq<char>) -> spec_fn(Seq<char>) -> bool {
    |l: Seq<char>| line_matches(lower_of(l), lower_of(q))
}

/// The lines in which `q` occurs, in their original order.
pub open spec fn matching_lines(lines: Seq<Seq<char>>, q: Seq<char>) -> Seq<Seq<char>> {
    lines.filter(line_pred(q))
}

/// The lines in which `q` occurs after folding both to lowercase, in their
/// original order.
pub open spec fn ci_matching_lines(lines: Seq<Seq<char>>, q: Seq<char>) -> Seq<Seq<char>> {
    lines.filter(ci_line_pred(q))
}

/// The matcher reports an offset exactly when the query occurs in the line.
pub proof fn lemma_found_iff_matches(line: Seq<char>, q: Seq<char>)
    ensures
        kmp_offsets(line, q).len() > 0 <==> line_matches(line, q),
{
    if kmp_offsets(line, q).len() > 0 {
        lemma_offsets_sound(line, q, line.len() as int);
        assert(match_at(line, q, kmp_offsets(line, q)[0]));
        if q.len() == 0 {
            assert(kmp_offsets(line, q) =~= Seq::<int>::empty());
        }
    }
    if line_matches(line, q) {
        let s = choose|s: int| match_at(line, q, s);
        lemma_offsets_complete(line, q, line.len() as int, s);
    }
}

/// Filtering commutes with extending the sequence by one line.
proof fn lemma_filter_push(s: Seq<Seq<char>>, x: Seq<char>, pred: spec_fn(Seq<char>) -> bool)
    ensures
        s.push(x).filter(pred) == if pred(x) {
            s.filter(pred).push(x)
        } else {
            s.filter(pred)
        },
{
    reveal(Seq::filter);
    assert(s.push(x).drop_last() =~= s);
    assert(s.push(x).last() == x);
}

/// The lines of `contents` in which `query` occurs, in their original order.
/// An empty query matches no line.
pub fn search(query: &str, contents: &str) -> (res: Vec<String>)
    ensures
        res.deep_view() == matching_lines(lines_of(contents@), query@),
{
    let q = chars_of(query);
    let text = chars_of(contents);
    let lines = split_lines(&text);
    let ghost dv = lines.deep_view();
    let mut res: Vec<String> = Vec::new();
    let mut i: usize = 0;
    proof {
        assert(dv.take(0) =~= Seq::<Seq<char>>::empty());
        assert(res.deep_view() =~~= Seq::<Seq<char>>::empty().filter(line_pred(query@)));
        assert(dv.len() == lines@.len());
    }
    while i < lines.len()
        invariant
            q@ == query@,
            dv == lines.deep_view(),
            dv == lines_of(contents@),
            dv.len() == lines@.len(),
            i <= lines@.len(),
            res.deep_view() == dv.take(i as int).filter(line_pred(query@)),
        decreases lines@.len() - i,
    {
        let ghost line = dv[i as int];
        proof {
            assert(lines@[i as int].deep_view() == line);
            assert(lines@[i as int]@ == line);
        }
        let offs = find_all(&lines[i], &q);
        proof {
            lemma_found_iff_matches(line, query@);
            assert(view_as_ints(offs@).len() == offs@.len());
            lemma_filter_push(dv.take(i as int), line, line_pred(query@));
            assert(dv.take(i as int).push(line) =~= dv.take(i as int + 1));
        }
        if offs.len() > 0 {
            let line_str = string_from_chars(&lines[i]);
            let ghost old_deep = res.deep_view();
            res.push(line_str);
            proof {
                assert(res.deep_view() =~~= old_deep.push(line));
            }
        }
        i = i + 1;
    }
    proof {
        assert(dv.take(dv.len() as int) =~= dv);
    }
    res
}

/// The lines of `contents` in which `query` occurs once both are folded to
/// lowercase, in their original order; the lines come back in their original
/// spelling. An empty query matches no line.
pub fn search_case_insensitive(query: &str, contents: &str) -> (res: Vec<String>)
    ensures
        res.deep_view() == ci_matching_lines(lines_of(contents@), query@),
{
    let lq = lowercase(query);
    let q = chars_of(lq.as_str());
    let text = chars_of(contents);
    let lines = split_lines(&text);
    let ghost dv = lines.deep_view();
    let mut res: Vec<String> = Vec::new();
    let mut i: usize = 0;
    proof {
        assert(dv.take(0) =~= Seq::<Seq<char>>::empty());
        assert(res.deep_view() =~~= Seq::<Seq<char>>::empty().filter(ci_line_pred(query@)));
        assert(dv.len() == lines@.len());
    }
    while i < lines.len()
        invariant
            q@ == lower_of(query@),
            dv == lines.deep_view(),
            dv == lines_of(contents@),
            dv.len() == lines@.len(),
            i <= lines@.len(),
            res.deep_view() == dv.take(i as int).filter(ci_line_pred(query@)),
        decreases lines@.len() - i,
    {
        let ghost line = dv[i as int];
        proof {
            assert(lines@[i as int].deep_view() == line);
            assert(lines@[i as int]@ == line);
        }
        let line_str = string_from_chars(&lines[i]);
        let lower_line = lowercase(line_str.as_str());
        let ll = chars_of(lower_line.as_str());
        let offs = find_all(&ll, &q);
        proof {
            lemma_found_iff_matches(lower_of(line), lower_of(query@));
            assert(view_as_ints(offs@).len() == offs@.len());
            lemma_filter_push(dv.take(i as int), line, ci_line_pred(query@));
            assert(dv.take(i as int).push(line) =~= dv.take(i as int + 1));
        }
        if offs.len() > 0 {
            let ghost old_deep = res.deep_view();
            res.push(line_str);
            proof {
                assert(res.deep_view() =~~= old_deep.push(line));
            }
        }
        i = i + 1;
    }
    proof {
        assert(dv.take(dv.len() as int) =~= dv);
    }
    res
}

/// The source positions of the lines that the case-sensitive search keeps,
/// in increasing order.
pub open spec fn match_indices(lines: Seq<Seq<char>>, q: Seq<char>) -> Seq<int>
    decreases lines.len(),
{
    if lines.len() == 0 {
        Seq::empty()
    } else if line_pred(q)(lines.last()) {
        match_indices(lines.drop_last(), q).push(lines.len() - 1)
    } else {
        match_indices(lines.drop_last(), q)
    }
}

proof fn lemma_match_indices(lines: Seq<Seq<char>>, q: Seq<char>)
    ensures
        match_indices(lines, q).len() == matching_lines(lines, q).len(),
        forall|x: int, y: int| 0 <= x < y < match_indices(lines, q).len() ==> match_indices(
            lines,
            q,
        )[x] < match_indices(lines, q)[y],
        forall|x: int| 0 <= x < match_indices(lines, q).len() ==> 0 <= #[trigger] match_indices(
            lines,
            q,
        )[x] < lines.len() && lines[match_indices(lines, q)[x]] == matching_lines(lines, q)[x],
    decreases lines.len(),
{
    reveal(Seq::filter);
    if lines.len() == 0 {
    } else {
        lemma_match_indices(lines.drop_last(), q);
        let idxp = match_indices(lines.drop_last(), q);
        let idx = match_indices(lines, q);
        let mlp = matching_lines(lines.drop_last(), q);
        let ml = matching_lines(lines, q);
        assert(lines.filter(line_pred(q)) == if line_pred(q)(lines.last()) {
            lines.drop_last().filter(line_pred(q)).push(lines.last())
        } else {
            lines.drop_last().filter(line_pred(q))
        });
        assert forall|x: int|
            0 <= x < idx.len() implies 0 <= #[trigger] idx[x] < lines.len() && lines[idx[x]]
            == ml[x] by {
            if x < idxp.len() {
                assert(idx[x] == idxp[x]);
                assert(lines.drop_last()[idxp[x]] == lines[idxp[x]]);
                assert(ml[x] == mlp[x]);
            } else {
                assert(idx[x] == lines.len() - 1);
            }
        }
        assert forall|x: int, y: int| 0 <= x < y < idx.len() implies idx[x] < idx[y] by {
            if y < idxp.len() {
                assert(idxp[x] < idxp[y]);
            } else {
                assert(idx[x] == idxp[x] && idxp[x] < lines.len() - 1);
            }
        }
    }
}

/// Law: the search keeps the original line order. The lines it keeps are
/// drawn from strictly increasing source positions, each holding exactly the
/// line reported at that place in the result.
pub proof fn lemma_search_preserves_order(lines: Seq<Seq<char>>, q: Seq<char>)
    ensures
        exists|idx: Seq<int>|
            {
                &&& #[trigger] idx.len() == matching_lines(lines, q).len()
                &&& (forall|x: int, y: int| 0 <= x < y < idx.len() ==> idx[x] < idx[y])
                &&& (forall|x: int| 0 <= x < idx.len() ==> 0 <= #[trigger] idx[x] < lines.len()
                    && lines[idx[x]] == matching_lines(lines, q)[x])
            },
{
    lemma_match_indices(lines, q);
    let idx = match_indices(lines, q);
    assert({
        &&& idx.len() == matching_lines(lines, q).len() as int
        &&& (forall|x: int, y: int| 0 <= x < y < idx.len() ==> idx[x] < idx[y])
        &&& (forall|x: int| 0 <= x < idx.len() ==> 0 <= #[trigger] idx[x] < lines.len() && lines[
            idx[x]] == matching_lines(lines, q)[x])
    });
}

/// Every line of a sequence of lines, folded to lowercase.
pub open spec fn lowered(lines: Seq<Seq<char>>) -> Seq<Seq<char>> {
    lines.map_values(|l: Seq<char>| lower_of(l))
}

/// Law: the case-insensitive search agrees with the case-sensitive search
/// over the lowercased query and the lowercased lines — the same lines are
/// kept, at the same places, up to the folding itself.
pub proof fn lemma_case_fold_agreement(lines: Seq<Seq<char>>, q: Seq<char>)
    ensures
        lowered(ci_matching_lines(lines, q)) == matching_lines(lowered(lines), lower_of(q)),
    decreases lines.len(),
{
    reveal(Seq::filter);
    if lines.len() == 0 {
        assert(lowered(ci_matching_lines(lines, q)) =~= matching_lines(
            lowered(lines),
            lower_of(q),
        ));
    } else {
        lemma_case_fold_agreement(lines.drop_last(), q);
        let last = lines.last();
        assert(lowered(lines).drop_last() =~= lowered(lines.drop_last()));
        assert(lowered(lines).last() == lower_of(last));
        assert(lines.filter(ci_line_pred(q)) == if ci_line_pred(q)(last) {
            lines.drop_last().filter(ci_line_pred(q)).push(last)
        } else {
            lines.drop_last().filter(ci_line_pred(q))
        });
        assert(lowered(lines).filter(line_pred(lower_of(q))) == if line_pred(lower_of(q))(
            lower_of(last),
        ) {
            lowered(lines.drop_last()).filter(line_pred(lower_of(q))).push(lower_of(last))
        } else {
            lowered(lines.drop_last()).filter(line_pred(lower_of(q)))
        });
        assert(ci_line_pred(q)(last) == line_pred(lower_of(q))(lower_of(last)));
        if ci_line_pred(q)(last) {
            assert(lowered(ci_matching_lines(lines.drop_last(), q).push(last)) =~= lowered(
                ci_matching_lines(lines.drop_last(), q),
            ).push(lower_of(last)));
        }
    }
}

} // verus!
