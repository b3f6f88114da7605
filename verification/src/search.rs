//! Match search: where in a sequence a prefix of a subsequence occurs, and
//! which of the occurrences is taken as a backward reference.

use vstd::prelude::*;
use vstd::slice::slice_subrange;

verus! {

/// How far `seq` read from `start` agrees with `subs`, given that the first
/// `k` bytes agree: the length of the common run.
pub open spec fn run_from(seq: Seq<u8>, subs: Seq<u8>, start: int, k: int) -> int
    decreases subs.len() - k,
{
    if 0 <= k < subs.len() && 0 <= start + k < seq.len() && seq[start + k] == subs[k] {
        run_from(seq, subs, start, k + 1)
    } else {
        k
    }
}

/// Length of the longest common prefix of `seq` read from `start` and `subs`.
pub open spec fn match_len(seq: Seq<u8>, subs: Seq<u8>, start: int) -> int {
    run_from(seq, subs, start, 0)
}

/// The first index at or after `from` where `seq` holds `byte`; the length of
/// `seq` if there is none.
pub open spec fn first_occurrence(seq: Seq<u8>, byte: u8, from: int) -> int
    decreases seq.len() - from,
{
    if from >= seq.len() {
        seq.len() as int
    } else if 0 <= from && seq[from] == byte {
        from
    } else {
        first_occurrence(seq, byte, from + 1)
    }
}

/// The first run: it starts where the first byte of `subs` first occurs in
/// `seq` and is as long as the two agree from there. `(0, 0)` if that byte
/// does not occur.
pub open spec fn first_match_spec(seq: Seq<u8>, subs: Seq<u8>) -> (int, int) {
    if subs.len() == 0 {
        (0, 0)
    } else {
        let start = first_occurrence(seq, subs[0], 0);
        if start >= seq.len() {
            (0, 0)
        } else {
            (start, match_len(seq, subs, start))
        }
    }
}

/// A run counts as a candidate when it is not empty and reaches the threshold.
pub open spec fn qualifies(len: int, threshold: int) -> bool {
    len > 0 && len >= threshold
}

/// The search from position `pos` on, with `found` candidates counted so far
/// and `best` the longest of them: every start position is looked at in turn
/// until `depth` candidates were counted (never, if `depth` is 0); a candidate
/// replaces `best` only if it is strictly longer.
pub open spec fn scan_from(
    seq: Seq<u8>,
    subs: Seq<u8>,
    threshold: int,
    depth: int,
    pos: int,
    found: int,
    best: (int, int),
) -> (int, int)
    decreases seq.len() - pos,
{
    if pos < 0 || pos >= seq.len() || (depth != 0 && found >= depth) {
        best
    } else {
        let len = match_len(seq, subs, pos);
        if qualifies(len, threshold) {
            scan_from(
                seq,
                subs,
                threshold,
                depth,
                pos + 1,
                found + 1,
                if len > best.1 {
                    (pos, len)
                } else {
                    best
                },
            )
        } else {
            scan_from(seq, subs, threshold, depth, pos + 1, found, best)
        }
    }
}

/// The candidate that the search settles on: the longest among the first
/// `depth` candidates (among all, if `depth` is 0), the earliest of equally
/// long ones; `(0, 0)` if there is no candidate.
pub open spec fn best_match_spec(seq: Seq<u8>, subs: Seq<u8>, threshold: int, depth: int) -> (
    int,
    int,
) {
    scan_from(seq, subs, threshold, depth, 0, 0, (0, 0))
}

/// A position and length that describe a real occurrence of a prefix of
/// `subs` in `seq`, or the empty answer `(0, 0)`.
pub open spec fn is_occurrence(seq: Seq<u8>, subs: Seq<u8>, found: (int, int)) -> bool {
    if found.1 == 0 {
        found.0 == 0
    } else {
        &&& 0 <= found.0 < seq.len()
        &&& 0 < found.1 <= subs.len()
        &&& found.0 + found.1 <= seq.len()
        &&& found.1 == match_len(seq, subs, found.0)
        &&& seq.subrange(found.0, found.0 + found.1) == subs.take(found.1)
    }
}

/// A common run stays inside both sequences, its bytes agree pairwise, and it
/// ends only where the sequences end or differ.
pub proof fn lemma_run_from(seq: Seq<u8>, subs: Seq<u8>, start: int, k: int)
    requires
        0 <= k <= subs.len(),
        0 <= start,
        start + k <= seq.len(),
    ensures
        ({
            let run = run_from(seq, subs, start, k);
            &&& k <= run <= subs.len()
            &&& start + run <= seq.len()
            &&& forall|j: int| k <= j < run ==> seq[start + j] == #[trigger] subs[j]
            &&& run < subs.len() && start + run < seq.len() ==> seq[start + run] != subs[run]
        }),
    decreases subs.len() - k,
{
    if k < subs.len() && start + k < seq.len() && seq[start + k] == subs[k] {
        lemma_run_from(seq, subs, start, k + 1);
    }
}

/// The longest common prefix at `start` is an occurrence of a prefix of `subs`.
pub proof fn lemma_match_is_occurrence(seq: Seq<u8>, subs: Seq<u8>, start: int)
    requires
        0 <= start < seq.len(),
        match_len(seq, subs, start) > 0,
    ensures
        is_occurrence(seq, subs, (start, match_len(seq, subs, start))),
{
    lemma_run_from(seq, subs, start, 0);
    let len = match_len(seq, subs, start);
    assert forall|j: int| 0 <= j < len implies seq.subrange(start, start + len)[j] == subs.take(
        len,
    )[j] by {
        assert(seq[start + j] == subs[j]);
    }
    assert(seq.subrange(start, start + len) =~= subs.take(len));
}

/// Before its first occurrence the byte does not occur.
pub proof fn lemma_first_occurrence(seq: Seq<u8>, byte: u8, from: int)
    requires
        0 <= from <= seq.len(),
    ensures
        from <= first_occurrence(seq, byte, from) <= seq.len(),
        forall|q: int| from <= q < first_occurrence(seq, byte, from) ==> #[trigger] seq[q] != byte,
        first_occurrence(seq, byte, from) < seq.len() ==> seq[first_occurrence(seq, byte, from)]
            == byte,
    decreases seq.len() - from,
{
    if from < seq.len() && seq[from] != byte {
        lemma_first_occurrence(seq, byte, from + 1);
    }
}

/// Whatever the search settles on is its starting `best` or a candidate met
/// on the way: an occurrence that is empty or reaches the threshold.
pub proof fn lemma_scan_is_occurrence(
    seq: Seq<u8>,
    subs: Seq<u8>,
    threshold: int,
    depth: int,
    pos: int,
    found: int,
    best: (int, int),
)
    requires
        is_occurrence(seq, subs, best),
        best.1 == 0 || best.1 >= threshold,
    ensures
        is_occurrence(seq, subs, scan_from(seq, subs, threshold, depth, pos, found, best)),
        scan_from(seq, subs, threshold, depth, pos, found, best).1 == 0 || scan_from(
            seq,
            subs,
            threshold,
            depth,
            pos,
            found,
            best,
        ).1 >= threshold,
        scan_from(seq, subs, threshold, depth, pos, found, best).1 >= best.1,
    decreases seq.len() - pos,
{
    if pos < 0 || pos >= seq.len() || (depth != 0 && found >= depth) {
    } else {
        let len = match_len(seq, subs, pos);
        if qualifies(len, threshold) {
            lemma_match_is_occurrence(seq, subs, pos);
            let next = if len > best.1 {
                (pos, len)
            } else {
                best
            };
            lemma_scan_is_occurrence(seq, subs, threshold, depth, pos + 1, found + 1, next);
        } else {
            lemma_scan_is_occurrence(seq, subs, threshold, depth, pos + 1, found, best);
        }
    }
}

/// With depth 0 the search is exhaustive: no candidate from `pos` on is
/// longer than what it settles on.
pub proof fn lemma_scan_exhaustive(
    seq: Seq<u8>,
    subs: Seq<u8>,
    threshold: int,
    pos: int,
    found: int,
    best: (int, int),
)
    requires
        0 <= pos,
    ensures
        scan_from(seq, subs, threshold, 0, pos, found, best).1 >= best.1,
        forall|p: int|
            pos <= p < seq.len() && qualifies(#[trigger] match_len(seq, subs, p), threshold)
                ==> scan_from(seq, subs, threshold, 0, pos, found, best).1 >= match_len(
                seq,
                subs,
                p,
            ),
    decreases seq.len() - pos,
{
    if pos < seq.len() {
        let len = match_len(seq, subs, pos);
        if qualifies(len, threshold) {
            let next = if len > best.1 {
                (pos, len)
            } else {
                best
            };
            lemma_scan_exhaustive(seq, subs, threshold, pos + 1, found + 1, next);
        } else {
            lemma_scan_exhaustive(seq, subs, threshold, pos + 1, found, best);
        }
    }
}

/// The search settles on an occurrence whose length is 0 or at least the
/// threshold; with depth 0 no start position has a longer candidate.
pub proof fn lemma_best_match(seq: Seq<u8>, subs: Seq<u8>, threshold: int, depth: int)
    ensures
        is_occurrence(seq, subs, best_match_spec(seq, subs, threshold, depth)),
        best_match_spec(seq, subs, threshold, depth).1 == 0 || best_match_spec(
            seq,
            subs,
            threshold,
            depth,
        ).1 >= threshold,
        depth == 0 ==> forall|p: int|
            0 <= p < seq.len() && qualifies(#[trigger] match_len(seq, subs, p), threshold)
                ==> best_match_spec(seq, subs, threshold, depth).1 >= match_len(seq, subs, p),
{
    lemma_scan_is_occurrence(seq, subs, threshold, depth, 0, 0, (0, 0));
    if depth == 0 {
        lemma_scan_exhaustive(seq, subs, threshold, 0, 0, (0, 0));
    }
}

/// Positions without a run do not change what the search settles on.
proof fn lemma_scan_skips(
    seq: Seq<u8>,
    subs: Seq<u8>,
    threshold: int,
    depth: int,
    from: int,
    to: int,
    found: int,
    best: (int, int),
)
    requires
        0 <= from <= to <= seq.len(),
        forall|p: int| from <= p < to ==> #[trigger] match_len(seq, subs, p) == 0,
    ensures
        scan_from(seq, subs, threshold, depth, from, found, best) == scan_from(
            seq,
            subs,
            threshold,
            depth,
            to,
            found,
            best,
        ),
    decreases to - from,
{
    if from < to {
        assert(match_len(seq, subs, from) == 0);
        lemma_scan_skips(seq, subs, threshold, depth, from + 1, to, found, best);
    }
}

/// A run inside the tail of `seq` from `base`, against `subs` cut to the
/// length of that tail, is the run at the same place in the whole.
proof fn lemma_run_in_tail(seq: Seq<u8>, subs: Seq<u8>, base: int, cut: int, start: int, k: int)
    requires
        0 <= base <= seq.len(),
        cut == if subs.len() <= seq.len() - base {
            subs.len() as int
        } else {
            seq.len() - base
        },
        0 <= start,
        0 <= k,
    ensures
        run_from(seq.subrange(base, seq.len() as int), subs.take(cut), start, k) == run_from(
            seq,
            subs,
            base + start,
            k,
        ),
    decreases subs.len() - k,
{
    let tail = seq.subrange(base, seq.len() as int);
    let head = subs.take(cut);
    if k < head.len() && start + k < tail.len() && tail[start + k] == head[k] {
        lemma_run_in_tail(seq, subs, base, cut, start, k + 1);
    }
}

/// The first occurrence in the tail of `seq` from `base` is the first
/// occurrence in the whole at or after `base`.
proof fn lemma_first_occurrence_in_tail(seq: Seq<u8>, byte: u8, base: int, from: int)
    requires
        0 <= base <= seq.len(),
        0 <= from,
    ensures
        base + first_occurrence(seq.subrange(base, seq.len() as int), byte, from)
            == first_occurrence(seq, byte, base + from),
    decreases seq.len() - base - from,
{
    let tail = seq.subrange(base, seq.len() as int);
    if from < tail.len() && tail[from] != byte {
        lemma_first_occurrence_in_tail(seq, byte, base, from + 1);
    }
}

/// Finds the first run in `sequence` that agrees with the beginning of
/// `subsequence`, and returns where it starts and how long it is.
pub fn first_match(sequence: &[u8], subsequence: &[u8]) -> (found: (usize, usize))
    ensures
        (found.0 as int, found.1 as int) == first_match_spec(sequence@, subsequence@),
        is_occurrence(sequence@, subsequence@, (found.0 as int, found.1 as int)),
        found.0 + found.1 <= sequence@.len(),
        found.1 <= subsequence@.len(),
        sequence@.subrange(found.0 as int, found.0 + found.1) == subsequence@.take(
            found.1 as int,
        ),
{
    let subs_len: usize = subsequence.len();
    let seq_len: usize = sequence.len();
    if subs_len == 0 {
        assert(sequence@.subrange(0, 0) =~= subsequence@.take(0));
        return (0, 0);
    }
    let first: u8 = subsequence[0];
    let mut match_count: usize = 0;
    let mut match_start: usize = 0;
    let mut pos: usize = 0;
    proof {
        lemma_first_occurrence(sequence@, first, 0);
    }
    while pos < seq_len
        invariant
            pos <= seq_len,
            seq_len == sequence@.len(),
            subs_len == subsequence@.len(),
            subs_len > 0,
            first == subsequence@[0],
            match_count == 0 ==> match_start == 0 && first_occurrence(sequence@, first, 0)
                == first_occurrence(sequence@, first, pos as int),
            match_count > 0 ==> {
                &&& match_start as int == first_occurrence(sequence@, first, 0)
                &&& match_start + match_count == pos
                &&& match_count < subs_len
                &&& match_len(sequence@, subsequence@, match_start as int) == run_from(
                    sequence@,
                    subsequence@,
                    match_start as int,
                    match_count as int,
                )
            },
        decreases seq_len - pos,
    {
        if sequence[pos] == subsequence[match_count] {
            if match_count == 0 {
                match_start = pos;
            }
            proof {
                if match_count == 0 {
                    assert(first_occurrence(sequence@, first, pos as int) == pos);
                }
                assert(run_from(sequence@, subsequence@, match_start as int, match_count as int)
                    == run_from(
                    sequence@,
                    subsequence@,
                    match_start as int,
                    match_count as int + 1,
                ));
                lemma_run_from(sequence@, subsequence@, match_start as int, match_count + 1);
            }
            match_count += 1;
            if match_count == subs_len {
                proof {
                    lemma_match_is_occurrence(sequence@, subsequence@, match_start as int);
                }
                return (match_start, match_count);
            }
        } else if match_count > 0 {
            proof {
                lemma_run_from(sequence@, subsequence@, match_start as int, match_count as int);
                lemma_match_is_occurrence(sequence@, subsequence@, match_start as int);
            }
            return (match_start, match_count);
        }
        pos += 1;
    }
    proof {
        if match_count > 0 {
            lemma_run_from(sequence@, subsequence@, match_start as int, match_count as int);
            lemma_match_is_occurrence(sequence@, subsequence@, match_start as int);
        } else {
            assert(sequence@.subrange(0, 0) =~= subsequence@.take(0));
        }
    }
    (match_start, match_count)
}

/// Finds the backward reference to use for `subsequence` within `sequence`:
/// the longest run of at least `threshold` bytes among the first
/// `search_depth` such runs, or among all of them if `search_depth` is 0.
pub fn best_match(sequence: &[u8], subsequence: &[u8], threshold: usize, search_depth: usize) -> (found:
    (usize, usize))
    ensures
        (found.0 as int, found.1 as int) == best_match_spec(
            sequence@,
            subsequence@,
            threshold as int,
            search_depth as int,
        ),
        found.1 == 0 || found.1 >= threshold,
        is_occurrence(sequence@, subsequence@, (found.0 as int, found.1 as int)),
        found.0 + found.1 <= sequence@.len(),
        found.1 <= subsequence@.len(),
        sequence@.subrange(found.0 as int, found.0 + found.1) == subsequence@.take(
            found.1 as int,
        ),
        search_depth == 0 ==> forall|p: int|
            0 <= p < sequence@.len() && qualifies(
                #[trigger] match_len(sequence@, subsequence@, p),
                threshold as int,
            ) ==> found.1 >= match_len(sequence@, subsequence@, p),
{
    let mut best: (usize, usize) = (0, 0);
    let mut matches_found: usize = 0;
    let mut pos: usize = 0;
    let seq_len: usize = sequence.len();
    let ghost goal = best_match_spec(
        sequence@,
        subsequence@,
        threshold as int,
        search_depth as int,
    );
    proof {
        lemma_best_match(sequence@, subsequence@, threshold as int, search_depth as int);
        assert(sequence@.subrange(0, 0) =~= subsequence@.take(0));
    }
    while pos < seq_len && (search_depth == 0 || matches_found < search_depth)
        invariant_except_break
            pos <= seq_len,
            seq_len == sequence@.len(),
            matches_found <= pos,
            goal == best_match_spec(
                sequence@,
                subsequence@,
                threshold as int,
                search_depth as int,
            ),
            goal == scan_from(
                sequence@,
                subsequence@,
                threshold as int,
                search_depth as int,
                pos as int,
                matches_found as int,
                (best.0 as int, best.1 as int),
            ),
        ensures
            goal == (best.0 as int, best.1 as int),
        decreases seq_len - pos,
    {
        let seq = slice_subrange(sequence, pos, seq_len);
        let subs_len: usize = if subsequence.len() <= seq.len() {
            subsequence.len()
        } else {
            seq.len()
        };
        let subs = slice_subrange(subsequence, 0, subs_len);
        let nmatch = first_match(seq, subs);
        let match_pos: usize = nmatch.0 + pos;
        let match_len: usize = nmatch.1;
        proof {
            let s = sequence@;
            let u = subsequence@;
            assert(seq@ == s.subrange(pos as int, s.len() as int));
            assert(subs@ == u.take(subs_len as int));
            if subs_len > 0 {
                lemma_first_occurrence(seq@, subs@[0], 0);
                lemma_first_occurrence_in_tail(s, u[0], pos as int, 0);
                lemma_first_occurrence(s, u[0], pos as int);
                lemma_run_in_tail(s, u, pos as int, subs_len as int, nmatch.0 as int, 0);
                let stop: int = if match_len > 0 {
                    match_pos as int
                } else {
                    s.len() as int
                };
                assert(subs@[0] == u[0]);
                let local = first_occurrence(seq@, u[0], 0);
                if local < seq@.len() {
                    lemma_run_from(seq@, subs@, local, 1);
                    assert(self::match_len(seq@, subs@, local) == run_from(seq@, subs@, local, 1));
                }
                assert(stop == first_occurrence(s, u[0], pos as int));
                assert forall|p: int| pos <= p < stop implies #[trigger] self::match_len(s, u, p)
                    == 0 by {
                    assert(s[p] != u[0]);
                }
                lemma_scan_skips(
                    s,
                    u,
                    threshold as int,
                    search_depth as int,
                    pos as int,
                    stop,
                    matches_found as int,
                    (best.0 as int, best.1 as int),
                );
            } else {
                assert forall|p: int| pos <= p < s.len() implies #[trigger] self::match_len(
                    s,
                    u,
                    p,
                ) == 0 by {}
                lemma_scan_skips(
                    s,
                    u,
                    threshold as int,
                    search_depth as int,
                    pos as int,
                    s.len() as int,
                    matches_found as int,
                    (best.0 as int, best.1 as int),
                );
            }
        }
        if match_len > 0 {
            pos = match_pos + 1;
            if match_len >= threshold {
                if match_len > best.1 {
                    best = (match_pos, match_len);
                }
                matches_found += 1;
            }
        } else {
            break ;
        }
    }
    best
}

} // verus!
