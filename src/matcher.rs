use vstd::prelude::*;
use crate::text::{chars_of, classify, classify_chars};

verus! {

/// State of the matcher after a prefix of the candidate: how many term
/// characters are consumed, whether the current word may still match, and
/// whether the whole term has been consumed.
pub struct MatchState {
    pub cursor: nat,
    pub eligible: bool,
    pub done: bool,
}

/// One step of the matcher on candidate character `c`, which is alphanumeric
/// when `a` holds.
pub open spec fn step(st: MatchState, c: char, a: bool, term: Seq<char>) -> MatchState {
    if st.done {
        st
    } else {
        let eligible = if !a { true } else { st.eligible };
        if !eligible {
            MatchState { eligible: false, ..st }
        } else if st.cursor < term.len() && c == term[st.cursor as int] {
            MatchState { cursor: st.cursor + 1, eligible: true, done: st.cursor + 1 == term.len() }
        } else if a {
            MatchState { eligible: false, ..st }
        } else {
            MatchState { eligible: true, ..st }
        }
    }
}

/// The matcher's state after the first `n` characters of `cand`.
pub open spec fn state_after(cand: Seq<char>, alnum: Seq<bool>, term: Seq<char>, n: nat) -> MatchState
    decreases n,
{
    if n == 0 {
        MatchState { cursor: 0, eligible: true, done: false }
    } else {
        step(
            state_after(cand, alnum, term, (n - 1) as nat),
            cand[n - 1],
            alnum[n - 1],
            term,
        )
    }
}

/// Word-boundary fuzzy match of `term` against `cand`, where `alnum[i]` tells
/// whether `cand[i]` is alphanumeric.
pub open spec fn word_match(cand: Seq<char>, alnum: Seq<bool>, term: Seq<char>) -> bool {
    state_after(cand, alnum, term, cand.len()).done
}

/// Whether `term` matches the candidate `cand`, classifying its characters
/// with `char::is_alphanumeric`.
pub open spec fn path_match(cand: Seq<char>, term: Seq<char>) -> bool {
    word_match(cand, classify(cand), term)
}

proof fn lemma_cursor_bounded(cand: Seq<char>, alnum: Seq<bool>, term: Seq<char>, n: nat)
    requires
        term.len() > 0,
    ensures
        state_after(cand, alnum, term, n).cursor <= term.len(),
        state_after(cand, alnum, term, n).done <==> state_after(cand, alnum, term, n).cursor
            == term.len(),
    decreases n,
{
    if n > 0 {
        lemma_cursor_bounded(cand, alnum, term, (n - 1) as nat);
    }
}

/// Runs the matcher over a candidate whose characters come classified.
pub fn matches_classified(candidate: &Vec<char>, alnum: &Vec<bool>, term: &Vec<char>) -> (r: bool)
    requires
        candidate.len() == alnum.len(),
        term.len() > 0,
    ensures
        r == word_match(candidate@, alnum@, term@),
{
    let mut cursor: usize = 0;
    let mut eligible = true;
    let mut i: usize = 0;
    while i < candidate.len()
        invariant
            candidate.len() == alnum.len(),
            term.len() > 0,
            i <= candidate.len(),
            cursor < term.len(),
            state_after(candidate@, alnum@, term@, i as nat) == (MatchState {
                cursor: cursor as nat,
                eligible,
                done: false,
            }),
        decreases candidate.len() - i,
    {
        let c = candidate[i];
        let a = alnum[i];
        if !a {
            eligible = true;
        }
        if eligible {
            if c == term[cursor] {
                cursor = cursor + 1;
                if cursor == term.len() {
                    proof {
                        lemma_done_stays(candidate@, alnum@, term@, (i + 1) as nat);
                    }
                    return true;
                }
            } else if a {
                eligible = false;
            }
        }
        i = i + 1;
    }
    false
}

proof fn lemma_done_stays(cand: Seq<char>, alnum: Seq<bool>, term: Seq<char>, n: nat)
    requires
        n <= cand.len(),
        state_after(cand, alnum, term, n).done,
    ensures
        word_match(cand, alnum, term),
    decreases cand.len() - n,
{
    if n < cand.len() {
        lemma_done_stays(cand, alnum, term, n + 1);
    }
}

/// Whether `input` matches the path text `path_str`, the matcher's term
/// being `input` and its candidate `path_str`.
pub fn path_matches_search(path_str: &str, input: &str) -> (r: bool)
    requires
        input@.len() > 0,
    ensures
        r == path_match(path_str@, input@),
{
    let cand = chars_of(path_str);
    let alnum = classify_chars(&cand);
    let term = chars_of(input);
    matches_classified(&cand, &alnum, &term)
}

/// `ix` places the characters of `t`, in order, at strictly increasing
/// positions of `c` below `bound`.
pub open spec fn is_embedding(ix: Seq<int>, t: Seq<char>, c: Seq<char>, bound: int) -> bool {
    &&& ix.len() == t.len()
    &&& bound <= c.len()
    &&& forall|k: int| 0 <= k < ix.len() ==> 0 <= #[trigger] ix[k] < bound && c[ix[k]] == t[k]
    &&& forall|k: int| 0 <= k < ix.len() - 1 ==> #[trigger] ix[k] < ix[k + 1]
}

/// The characters of `t` occur in `c` in the same order.
pub open spec fn occurs_in_order(t: Seq<char>, c: Seq<char>) -> bool {
    exists|ix: Seq<int>| is_embedding(ix, t, c, c.len() as int)
}

proof fn embedding_of_state(cand: Seq<char>, alnum: Seq<bool>, term: Seq<char>, n: nat) -> (ix:
    Seq<int>)
    requires
        n <= cand.len(),
        term.len() > 0,
    ensures
        is_embedding(
            ix,
            term.subrange(0, state_after(cand, alnum, term, n).cursor as int),
            cand,
            n as int,
        ),
    decreases n,
{
    lemma_cursor_bounded(cand, alnum, term, n);
    if n == 0 {
        Seq::empty()
    } else {
        let prev = embedding_of_state(cand, alnum, term, (n - 1) as nat);
        lemma_cursor_bounded(cand, alnum, term, (n - 1) as nat);
        let before = state_after(cand, alnum, term, (n - 1) as nat);
        let after = state_after(cand, alnum, term, n);
        if after.cursor == before.cursor {
            prev
        } else {
            let ix = prev.push(n - 1);
            assert(term.subrange(0, after.cursor as int) =~= term.subrange(
                0,
                before.cursor as int,
            ).push(term[before.cursor as int]));
            assert(is_embedding(ix, term.subrange(0, after.cursor as int), cand, n as int));
            ix
        }
    }
}

/// Whenever the matcher succeeds, the term's characters occur in the
/// candidate in order: a term whose characters cannot be found in order
/// never matches.
pub proof fn lemma_match_needs_order(cand: Seq<char>, alnum: Seq<bool>, term: Seq<char>)
    requires
        cand.len() == alnum.len(),
        term.len() > 0,
        word_match(cand, alnum, term),
    ensures
        occurs_in_order(term, cand),
{
    lemma_cursor_bounded(cand, alnum, term, cand.len());
    let ix = embedding_of_state(cand, alnum, term, cand.len());
    assert(term.subrange(0, term.len() as int) =~= term);
}

proof fn lemma_before_occurrence(cand: Seq<char>, alnum: Seq<bool>, term: Seq<char>, j: nat, i: int)
    requires
        term.len() > 0,
        j <= i <= cand.len(),
        forall|m: int| 0 <= m < i ==> cand[m] != term[0],
    ensures
        state_after(cand, alnum, term, j).cursor == 0,
        !state_after(cand, alnum, term, j).done,
        j > 0 && !alnum[j - 1] ==> state_after(cand, alnum, term, j).eligible,
    decreases j,
{
    if j > 0 {
        lemma_before_occurrence(cand, alnum, term, (j - 1) as nat, i);
    }
}

proof fn lemma_inside_occurrence(cand: Seq<char>, alnum: Seq<bool>, term: Seq<char>, i: int, k: nat)
    requires
        term.len() > 0,
        0 <= i,
        k < term.len(),
        i + term.len() <= cand.len(),
        cand.subrange(i, i + term.len()) == term,
        state_after(cand, alnum, term, i as nat) == (MatchState {
            cursor: 0,
            eligible: true,
            done: false,
        }),
    ensures
        state_after(cand, alnum, term, (i + k) as nat) == (MatchState {
            cursor: k,
            eligible: true,
            done: false,
        }),
    decreases k,
{
    if k > 0 {
        lemma_inside_occurrence(cand, alnum, term, i, (k - 1) as nat);
        assert(cand[i + k - 1] == cand.subrange(i, i + term.len())[k - 1]);
    }
}

/// A term that occurs as a contiguous run starting a word of the candidate
/// matches, provided the term's first character does not occur earlier in
/// the candidate.
pub proof fn lemma_word_start_run_matches(cand: Seq<char>, alnum: Seq<bool>, term: Seq<char>, i: int)
    requires
        cand.len() == alnum.len(),
        term.len() > 0,
        0 <= i,
        i + term.len() <= cand.len(),
        cand.subrange(i, i + term.len()) == term,
        i == 0 || !alnum[i - 1],
        forall|m: int| 0 <= m < i ==> cand[m] != term[0],
    ensures
        word_match(cand, alnum, term),
{
    lemma_before_occurrence(cand, alnum, term, i as nat, i);
    let last = (term.len() - 1) as nat;
    lemma_inside_occurrence(cand, alnum, term, i, last);
    assert(cand[i + last] == cand.subrange(i, i + term.len())[last as int]);
    lemma_done_stays(cand, alnum, term, (i + term.len()) as nat);
}

} // verus!
