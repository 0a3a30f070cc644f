use vstd::prelude::*;

use crate::field::{chars_of, first_delim, find_delim, string_of};
use crate::select::{lemma_ranked, ranked, select_top, sorted_by_rank, top, Scored};

verus! {

broadcast use vstd::seq_lib::group_to_multiset_ensures, vstd::multiset::group_multiset_axioms;

/// One filter request: the caller's id for it, echoed back verbatim, and the
/// search pattern.
pub struct Query {
    pub sequence: String,
    pub pattern: String,
}

/// `s` without the newlines at its end.
pub open spec fn strip_newlines(s: Seq<char>) -> Seq<char>
    decreases s.len(),
{
    if s.len() > 0 && s.last() == '\n' {
        strip_newlines(s.drop_last())
    } else {
        s
    }
}

/// The id and the pattern of a request line: what comes before and after its
/// first space, once the newlines at its end are gone. A line without a space
/// has neither.
pub open spec fn parse_spec(line: Seq<char>) -> Option<(Seq<char>, Seq<char>)> {
    let t = strip_newlines(line);
    let i = first_delim(t, ' ');
    if i < t.len() {
        Some((t.subrange(0, i), t.subrange(i + 1, t.len() as int)))
    } else {
        None
    }
}

/// Reads a request line `"<sequence_id> <pattern>"`; `None` for a line that
/// has no space.
pub fn parse_query(line: &str) -> (r: Option<Query>)
    ensures
        match r {
            Some(q) => parse_spec(line@) == Some((q.sequence@, q.pattern@)),
            None => parse_spec(line@) is None,
        },
{
    let cs = chars_of(line);
    let len = cs.len();
    let mut end: usize = len;
    assert(line@.take(len as int) =~= line@);
    while end > 0 && cs[end - 1] == '\n'
        invariant
            len == line@.len(),
            cs@ == line@,
            end <= len,
            strip_newlines(line@.take(end as int)) == strip_newlines(line@),
        decreases end,
    {
        assert(line@.take(end as int).drop_last() =~= line@.take(end - 1));
        end = end - 1;
    }
    let i = find_delim(&cs, ' ', 0, end);
    let ghost t = line@.take(end as int);
    assert(cs@.subrange(0, end as int) =~= t);
    if i >= end {
        return None;
    }
    let sequence = string_of(&cs, 0, i);
    let pattern = string_of(&cs, i + 1, end);
    assert(t.subrange(0, i as int) =~= cs@.subrange(0, i as int));
    assert(t.subrange(i + 1, end as int) =~= cs@.subrange(i + 1, end as int));
    Some(Query { sequence, pattern })
}

/// The line acted on when `first` was received and `queued` were waiting
/// behind it: the most recent one.
pub open spec fn coalesced(first: String, queued: Seq<String>) -> String {
    if queued.len() == 0 {
        first
    } else {
        queued.last()
    }
}

/// Keeps only the most recent of the request lines received so far.
pub fn coalesce(first: String, queued: Vec<String>) -> (r: String)
    ensures
        r == coalesced(first, queued@),
{
    let mut queued = queued;
    match queued.pop() {
        Some(latest) => latest,
        None => first,
    }
}

/// Of the lines that were waiting when the loop came free, only the most
/// recent is acted on: an earlier line that differs from it is dropped
/// unanswered.
pub proof fn lemma_coalesce_drops_stale(first: String, queued: Seq<String>, i: int)
    requires
        0 <= i < queued.len() - 1,
        queued[i] != queued.last(),
    ensures
        coalesced(first, queued) == queued.last(),
        coalesced(first, queued) != queued[i],
{
}

/// A whitespace character: one with Unicode's `White_Space` property.
pub open spec fn is_space(c: char) -> bool {
    let x = c as u32;
    (0x09 <= x && x <= 0x0D) || x == 0x20 || x == 0x85 || x == 0xA0 || x == 0x1680 || (0x2000
        <= x && x <= 0x200A) || x == 0x2028 || x == 0x2029 || x == 0x202F || x == 0x205F || x
        == 0x3000
}

/// A pattern of whitespace alone (or none) asks for the corpus unranked.
pub open spec fn is_blank(p: Seq<char>) -> bool {
    forall|i: int| 0 <= i < p.len() ==> is_space(#[trigger] p[i])
}

fn space(c: char) -> (r: bool)
    ensures
        r == is_space(c),
{
    let x = c as u32;
    (0x09 <= x && x <= 0x0D) || x == 0x20 || x == 0x85 || x == 0xA0 || x == 0x1680 || (0x2000
        <= x && x <= 0x200A) || x == 0x2028 || x == 0x2029 || x == 0x202F || x == 0x205F || x
        == 0x3000
}

/// Whether `p` is blank: such a request is answered with the corpus
/// unranked, and nothing is scored for it.
pub fn is_blank_pattern(p: &str) -> (r: bool)
    ensures
        r == is_blank(p@),
{
    let cs = chars_of(p);
    let n = cs.len();
    let mut i: usize = 0;
    while i < n
        invariant
            n == p@.len(),
            cs@ == p@,
            i <= n,
            forall|k: int| 0 <= k < i ==> is_space(#[trigger] p@[k]),
        decreases n - i,
    {
        if !space(cs[i]) {
            return false;
        }
        i = i + 1;
    }
    true
}

/// The text of each string.
pub open spec fn views(corpus: Seq<String>) -> Seq<Seq<char>> {
    corpus.map_values(|s: String| s@)
}

/// A response line: the id, a space, the corpus line.
pub open spec fn framed(sequence: Seq<char>, line: Seq<char>) -> Seq<char> {
    sequence + seq![' '] + line
}

/// Line `i` was scored, and positively.
pub open spec fn is_match(scores: Seq<Option<i32>>, i: int) -> bool {
    match scores[i] {
        Some(s) => s > 0,
        None => false,
    }
}

/// The lines among the first `n` whose score is positive, as (score,
/// position) in corpus order. `scores[i]` is the score of line `i`, or none
/// when the line has no field to score.
pub open spec fn scored(scores: Seq<Option<i32>>, n: nat) -> Seq<Scored>
    decreases n,
{
    if n == 0 {
        Seq::empty()
    } else {
        let prev = scored(scores, (n - 1) as nat);
        if is_match(scores, n - 1) {
            prev.push((scores[n - 1]->0, (n - 1) as usize))
        } else {
            prev
        }
    }
}

/// The number of corpus lines that a response of `limit` lines shows when
/// the pattern is blank.
pub open spec fn shown(limit: Option<usize>, len: nat) -> nat {
    match limit {
        Some(k) => if k < len {
            k as nat
        } else {
            len
        },
        None => len,
    }
}

/// The response to the request (`sequence`, `p`): the framed lines, then the
/// id alone. A blank pattern shows the first lines of the corpus in order;
/// any other shows the best lines with a positive score, best first.
pub open spec fn response(
    corpus: Seq<Seq<char>>,
    sequence: Seq<char>,
    p: Seq<char>,
    limit: Option<usize>,
    scores: Seq<Option<i32>>,
) -> Seq<Seq<char>> {
    let body = if is_blank(p) {
        corpus.take(shown(limit, corpus.len()) as int).map_values(
            |l: Seq<char>| framed(sequence, l),
        )
    } else {
        top(scored(scores, corpus.len()), limit).map_values(
            |x: Scored| framed(sequence, corpus[x.1 as int]),
        )
    };
    body.push(sequence)
}

fn frame(sequence: &String, line: &String) -> (r: String)
    ensures
        r@ == framed(sequence@, line@),
{
    let mut r = sequence.clone();
    r.append(" ");
    proof {
        reveal_strlit(" ");
    }
    r.append(line.as_str());
    r
}

proof fn lemma_scored_lines(scores: Seq<Option<i32>>, n: nat)
    requires
        n <= scores.len(),
        scores.len() <= usize::MAX,
    ensures
        forall|j: int|
            0 <= j < scored(scores, n).len() ==> (#[trigger] scored(scores, n)[j]).1 < n,
        forall|j: int, k: int|
            0 <= j < k < scored(scores, n).len() ==> scored(scores, n)[j].1 < scored(
                scores,
                n,
            )[k].1,
        forall|i: int|
            0 <= i < n ==> (#[trigger] is_match(scores, i) <==> exists|j: int|
                0 <= j < scored(scores, n).len() && scored(scores, n)[j].1 == i),
    decreases n,
{
    if n > 0 {
        let prev = scored(scores, (n - 1) as nat);
        let cur = scored(scores, n);
        lemma_scored_lines(scores, (n - 1) as nat);
        assert forall|j: int| 0 <= j < cur.len() implies (#[trigger] cur[j]).1 < n by {
            if j < prev.len() {
                assert(cur[j] == prev[j]);
            }
        }
        assert forall|i: int| 0 <= i < n implies (#[trigger] is_match(scores, i) <==> exists|
            j: int,
        | 0 <= j < cur.len() && cur[j].1 == i) by {
            if i < n - 1 {
                if is_match(scores, i) {
                    let j = choose|j: int| 0 <= j < prev.len() && prev[j].1 == i;
                    assert(cur[j] == prev[j]);
                } else {
                    assert forall|j: int| 0 <= j < cur.len() implies cur[j].1 != i by {
                        if j < prev.len() {
                            assert(cur[j] == prev[j]);
                        }
                    }
                }
            } else {
                if is_match(scores, i) {
                    assert(cur[cur.len() - 1].1 == i);
                } else {
                    assert forall|j: int| 0 <= j < cur.len() implies cur[j].1 != i by {
                        assert(cur[j] == prev[j]);
                        assert(prev[j].1 < n - 1);
                    }
                }
            }
        }
    }
}

/// Answers one request against the corpus: the lines of the response, the
/// end marker last. `scores[i]` is the scorer's score of line `i`'s field
/// for the request's pattern, or none when the line has no such field; a
/// blank pattern needs no scores.
pub fn respond(
    corpus: &Vec<String>,
    query: &Query,
    limit: Option<usize>,
    scores: &Vec<Option<i32>>,
) -> (r: Vec<String>)
    requires
        !is_blank(query.pattern@) ==> scores@.len() == corpus@.len(),
    ensures
        views(r@) == response(views(corpus@), query.sequence@, query.pattern@, limit, scores@),
{
    let ghost cv = views(corpus@);
    let mut out: Vec<String> = Vec::new();
    let ghost body: Seq<Seq<char>>;
    if is_blank_pattern(query.pattern.as_str()) {
        let n = match limit {
            Some(k) => if k < corpus.len() {
                k
            } else {
                corpus.len()
            },
            None => corpus.len(),
        };
        let mut i: usize = 0;
        while i < n
            invariant
                n == shown(limit, corpus@.len()),
                n <= corpus.len(),
                cv == views(corpus@),
                i <= n,
                out@.len() == i,
                forall|q: int| 0 <= q < i ==> (#[trigger] out@[q])@ == framed(query.sequence@, cv[q]),
            decreases n - i,
        {
            out.push(frame(&query.sequence, &corpus[i]));
            i = i + 1;
        }
        proof {
            body = cv.take(n as int).map_values(|l: Seq<char>| framed(query.sequence@, l));
            assert(views(out@) =~= body);
        }
    } else {
        let mut items: Vec<Scored> = Vec::new();
        let mut i: usize = 0;
        while i < corpus.len()
            invariant
                scores@.len() == corpus@.len(),
                i <= corpus.len(),
                items@ == scored(scores@, i as nat),
            decreases corpus.len() - i,
        {
            match scores[i] {
                Some(s) => {
                    if s > 0 {
                        items.push((s, i));
                    }
                },
                None => {},
            }
            i = i + 1;
        }
        let ghost all = items@;
        proof {
            lemma_scored_lines(scores@, corpus.len() as nat);
            lemma_ranked(all);
        }
        let best = select_top(items, limit);
        proof {
            assert forall|j: int| 0 <= j < best@.len() implies (#[trigger] best@[j]).1
                < corpus.len() by {
                let rk = ranked(all);
                assert(rk.to_multiset().len() == rk.len());
                assert(all.to_multiset().len() == all.len());
                assert(best@[j] == rk[j]);
                assert(rk.contains(rk[j]));
                assert(all.to_multiset().count(rk[j]) > 0);
                assert(all.contains(rk[j]));
            }
        }
        let mut j: usize = 0;
        while j < best.len()
            invariant
                cv == views(corpus@),
                j <= best.len(),
                forall|q: int| 0 <= q < best@.len() ==> (#[trigger] best@[q]).1 < corpus.len(),
                out@.len() == j,
                forall|q: int|
                    0 <= q < j ==> (#[trigger] out@[q])@ == framed(
                        query.sequence@,
                        cv[best@[q].1 as int],
                    ),
            decreases best.len() - j,
        {
            out.push(frame(&query.sequence, &corpus[best[j].1]));
            j = j + 1;
        }
        proof {
            body = best@.map_values(|x: Scored| framed(query.sequence@, cv[x.1 as int]));
            assert(views(out@) =~= body);
        }
    }
    let ghost before_end = out@;
    out.push(query.sequence.clone());
    proof {
        assert(views(out@) =~= views(before_end).push(query.sequence@));
    }
    out
}

/// Without a limit, a non-blank request is answered with exactly the lines
/// whose score is positive, each once, best first, and then the end marker.
pub proof fn lemma_unlimited_selects_matches(
    corpus: Seq<Seq<char>>,
    sequence: Seq<char>,
    p: Seq<char>,
    scores: Seq<Option<i32>>,
)
    requires
        scores.len() == corpus.len(),
        corpus.len() <= usize::MAX,
        !is_blank(p),
    ensures
        ({
            let sel = top(scored(scores, corpus.len()), None);
            &&& response(corpus, sequence, p, None, scores) == sel.map_values(
                |x: Scored| framed(sequence, corpus[x.1 as int]),
            ).push(sequence)
            &&& sorted_by_rank(sel)
            &&& forall|i: int|
                0 <= i < corpus.len() ==> (#[trigger] is_match(scores, i) <==> exists|j: int|
                    0 <= j < sel.len() && sel[j].1 == i)
            &&& forall|j: int, k: int| 0 <= j < k < sel.len() ==> sel[j].1 != sel[k].1
            &&& forall|j: int| 0 <= j < sel.len() ==> sel[j].0 == (#[trigger] scores[sel[j].1 as int])->0
        }),
{
    let items = scored(scores, corpus.len());
    let sel = top(items, None);
    lemma_scored_lines(scores, corpus.len());
    lemma_scored_values(scores, corpus.len());
    lemma_ranked(items);
    assert(items.no_duplicates());
    items.lemma_multiset_has_no_duplicates();
    sel.lemma_multiset_has_no_duplicates_conv();
    assert forall|j: int| 0 <= j < sel.len() implies #[trigger] items.contains(sel[j]) by {
        assert(sel.contains(sel[j]));
        assert(items.to_multiset().count(sel[j]) > 0);
    }
    assert forall|i: int| 0 <= i < corpus.len() implies (#[trigger] is_match(scores, i) <==> exists|
        j: int,
    | 0 <= j < sel.len() && sel[j].1 == i) by {
        if is_match(scores, i) {
            let j = choose|j: int| 0 <= j < items.len() && items[j].1 == i;
            assert(items.contains(items[j]));
            assert(sel.to_multiset().count(items[j]) > 0);
            assert(sel.contains(items[j]));
        }
        if exists|j: int| 0 <= j < sel.len() && sel[j].1 == i {
            let j = choose|j: int| 0 <= j < sel.len() && sel[j].1 == i;
            assert(items.contains(sel[j]));
            let a = choose|a: int| 0 <= a < items.len() && items[a] == sel[j];
            assert(items[a].1 == i);
        }
    }
    assert forall|j: int, k: int| 0 <= j < k < sel.len() implies sel[j].1 != sel[k].1 by {
        assert(items.contains(sel[j]));
        assert(items.contains(sel[k]));
        let a = choose|a: int| 0 <= a < items.len() && items[a] == sel[j];
        let b = choose|b: int| 0 <= b < items.len() && items[b] == sel[k];
        if a != b {
            assert(items[a].1 != items[b].1);
        }
    }
    assert forall|j: int| 0 <= j < sel.len() implies sel[j].0 == (#[trigger] scores[sel[j].1 as int])->0 by {
        assert(items.contains(sel[j]));
        let a = choose|a: int| 0 <= a < items.len() && items[a] == sel[j];
    }
}

proof fn lemma_scored_values(scores: Seq<Option<i32>>, n: nat)
    requires
        n <= scores.len(),
        scores.len() <= usize::MAX,
    ensures
        forall|j: int|
            0 <= j < scored(scores, n).len() ==> is_match(scores, scored(scores, n)[j].1 as int)
                && scored(scores, n)[j].0 == (#[trigger] scores[scored(scores, n)[j].1 as int])->0,
    decreases n,
{
    if n > 0 {
        let prev = scored(scores, (n - 1) as nat);
        let cur = scored(scores, n);
        lemma_scored_values(scores, (n - 1) as nat);
        assert forall|j: int| 0 <= j < cur.len() implies is_match(scores, cur[j].1 as int)
            && cur[j].0 == (#[trigger] scores[cur[j].1 as int])->0 by {
            if j < prev.len() {
                assert(cur[j] == prev[j]);
            }
        }
    }
}

} // verus!
