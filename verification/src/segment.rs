//! The segmentation engine: a single greedy forward pass over an input.
//!
//! At each position the engine asks the trie for the best match of the
//! remaining input. On a match it emits the matched element and advances by
//! the element's own spelled length; otherwise it emits the single leading
//! symbol as a failure and advances by one. Maximal runs of consecutive
//! failures are folded into one combined error entry. A failed match never
//! triggers re-evaluation of earlier positions, and a successful match is
//! never revisited or extended.

use crate::elements::{Element, ElementData, spelling};
use crate::trie::Trie;
use vstd::prelude::*;
use vstd::string::StrSliceExecFns;

verus! {

/// A trie whose stored elements are filed under their own spelling: every
/// value sits exactly at the key [`spelling`] gives for it, and that key is
/// non-empty. `element_trie` builds such tries.
pub open spec fn well_spelled(t: Trie<Element>) -> bool {
    forall|k: Seq<char>|
        #[trigger] t.value_at(k) matches Some(e) ==> (k == spelling(e@) && k.len() >= 1)
}

/// Every best match can be consumed where it was found: its symbol is
/// non-empty and no longer than the input it matched against. This is what
/// [`segment`] needs to advance; well-spelled tries satisfy it.
pub open spec fn advances_in_bounds(t: Trie<Element>) -> bool {
    forall|s: Seq<char>|
        #[trigger] t.best_match_spec(s) matches Some(e) ==> (1 <= e.short@.len() <= s.len())
}

/// In a well-spelled trie every match sits at the key its spelling names, so
/// consuming a match always advances and never overruns the input.
pub proof fn lemma_well_spelled_advances(t: Trie<Element>)
    requires
        well_spelled(t),
    ensures
        advances_in_bounds(t),
{
    assert forall|s: Seq<char>|
        #[trigger] t.best_match_spec(s) matches Some(e) ==> (1 <= e.short@.len()
            <= s.len()) by {
        t.lemma_best_match_walk(s);
        let w = t.walk(s);
        assert(t.best_match_spec(s) == t.value_at(w));
        match t.value_at(w) {
            Some(e) => {
                assert(w == spelling(e@) && w.len() >= 1);
                assert(spelling(e@).len() == e.short@.len());
                assert(w.len() <= s.len());
            },
            None => {},
        }
    }
}

/// How far one transition advances: the matched token's own spelled length
/// (clipped only to keep the definition total; on tries that satisfy
/// [`advances_in_bounds`] no clipping ever happens), or one symbol on failure.
pub open spec fn match_step(t: Trie<Element>, s: Seq<char>) -> int {
    match t.best_match_spec(s) {
        Some(e) => if e.short@.len() < 1 {
            1
        } else if e.short@.len() > s.len() {
            s.len() as int
        } else {
            e.short@.len() as int
        },
        None => 1,
    }
}

/// The segmentation of `s` against `t`: repeatedly consume the best match at
/// the front, or a single unmatched symbol, until the input is exhausted;
/// maximal runs of consecutive unmatched symbols appear folded into one
/// combined error entry, in original order.
pub open spec fn seg_spec(t: Trie<Element>, s: Seq<char>) -> Seq<Result<ElementData, Seq<char>>>
    decreases s.len(),
{
    if s.len() <= 0 {
        Seq::empty()
    } else {
        match t.best_match_spec(s) {
            Some(e) => seq![Ok::<ElementData, Seq<char>>(e@)] + seg_spec(
                t,
                s.skip(match_step(t, s)),
            ),
            None => {
                let rest = seg_spec(t, s.skip(1));
                if rest.len() > 0 && rest[0] is Err {
                    seq![Err::<ElementData, Seq<char>>(seq![s[0]] + rest[0]->Err_0)] + rest.skip(1)
                } else {
                    seq![Err::<ElementData, Seq<char>>(seq![s[0]])] + rest
                }
            },
        }
    }
}

/// The characters one result item contributes to the reassembled input: a
/// matched element contributes its spelling, an error run its own symbols.
pub open spec fn spelled_concat(items: Seq<Result<ElementData, Seq<char>>>) -> Seq<char>
    decreases items.len(),
{
    if items.len() <= 0 {
        Seq::empty()
    } else {
        (match items[0] {
            Ok(e) => spelling(e),
            Err(run) => run,
        }) + spelled_concat(items.skip(1))
    }
}

/// Round-trip coverage: concatenating, in order, the spelling of every
/// matched element and the literal symbols of every unmatched run reproduces
/// the original input exactly — no gaps, no overlaps, no symbol consumed
/// twice.
pub proof fn lemma_segment_round_trip(t: Trie<Element>, s: Seq<char>)
    requires
        well_spelled(t),
    ensures
        spelled_concat(seg_spec(t, s)) == s,
    decreases s.len(),
{
    if s.len() == 0 {
        assert(spelled_concat(seg_spec(t, s)) =~= s);
    } else {
        t.lemma_best_match_walk(s);
        let w = t.walk(s);
        match t.best_match_spec(s) {
            Some(e) => {
                assert(t.value_at(w) == Some(e));
                assert(w == spelling(e@) && w.len() >= 1);
                assert(spelling(e@).len() == e.short@.len());
                let n: int = match_step(t, s);
                assert(n == e.short@.len());
                lemma_segment_round_trip(t, s.skip(n));
                let items = seg_spec(t, s);
                assert(items == seq![Ok::<ElementData, Seq<char>>(e@)] + seg_spec(t, s.skip(n)));
                assert(items[0] == Ok::<ElementData, Seq<char>>(e@));
                assert(items.skip(1) =~= seg_spec(t, s.skip(n)));
                assert(spelled_concat(items) == spelling(e@) + spelled_concat(items.skip(1)));
                assert(w =~= s.subrange(0, n));
                assert(spelling(e@) + s.skip(n) =~= s);
            },
            None => {
                lemma_segment_round_trip(t, s.skip(1));
                let rest = seg_spec(t, s.skip(1));
                let items = seg_spec(t, s);
                if rest.len() > 0 && rest[0] is Err {
                    assert(items == seq![
                        Err::<ElementData, Seq<char>>(seq![s[0]] + rest[0]->Err_0),
                    ] + rest.skip(1));
                    assert(items[0]->Err_0 == seq![s[0]] + rest[0]->Err_0);
                    assert(items.skip(1) =~= rest.skip(1));
                    assert(spelled_concat(rest) == rest[0]->Err_0 + spelled_concat(rest.skip(1)));
                    assert(spelled_concat(items) == (seq![s[0]] + rest[0]->Err_0)
                        + spelled_concat(rest.skip(1)));
                    assert((seq![s[0]] + rest[0]->Err_0) + spelled_concat(rest.skip(1)) =~= seq![
                        s[0],
                    ] + (rest[0]->Err_0 + spelled_concat(rest.skip(1))));
                    assert(seq![s[0]] + s.skip(1) =~= s);
                } else {
                    assert(items == seq![Err::<ElementData, Seq<char>>(seq![s[0]])] + rest);
                    assert(items.skip(1) =~= rest);
                    assert(spelled_concat(items) == seq![s[0]] + spelled_concat(rest));
                    assert(seq![s[0]] + s.skip(1) =~= s);
                }
            },
        }
    }
}

/// Empty input yields an empty result sequence, whatever the dictionary.
pub proof fn lemma_segment_empty_input(t: Trie<Element>)
    ensures
        seg_spec(t, Seq::empty()) == Seq::<Result<ElementData, Seq<char>>>::empty(),
{
}

/// A dictionary that stores nothing matches nothing: segmenting any
/// non-empty input yields exactly one unmatched run holding the whole input.
pub proof fn lemma_empty_trie_one_run(t: Trie<Element>, s: Seq<char>)
    requires
        s.len() > 0,
        forall|k: Seq<char>| #[trigger] t.value_at(k) is None,
    ensures
        seg_spec(t, s) == seq![Err::<ElementData, Seq<char>>(s)],
    decreases s.len(),
{
    t.lemma_best_match_walk(s);
    assert(t.best_match_spec(s) is None);
    let rest = seg_spec(t, s.skip(1));
    if s.len() == 1 {
        assert(s.skip(1) =~= Seq::<char>::empty());
        assert(rest =~= Seq::<Result<ElementData, Seq<char>>>::empty());
        assert(seq![s[0]] =~= s);
        assert(seg_spec(t, s) =~= seq![Err::<ElementData, Seq<char>>(s)]);
    } else {
        lemma_empty_trie_one_run(t, s.skip(1));
        assert(rest == seq![Err::<ElementData, Seq<char>>(s.skip(1))]);
        assert(rest[0] is Err);
        assert(seq![s[0]] + rest[0]->Err_0 =~= s);
        assert(rest.skip(1) =~= Seq::<Result<ElementData, Seq<char>>>::empty());
        assert(seg_spec(t, s) =~= seq![Err::<ElementData, Seq<char>>(s)]);
    }
}

/// The items of an executable result vector, as their mathematical views.
pub open spec fn results_view(r: Seq<Result<&Element, Vec<char>>>) -> Seq<
    Result<ElementData, Seq<char>>,
> {
    r.map_values(
        |it: Result<&Element, Vec<char>>|
            match it {
                Ok(e) => Ok::<ElementData, Seq<char>>(e@),
                Err(run) => Err::<ElementData, Seq<char>>(run@),
            },
    )
}

/// Segment `word` against the dictionary in `trie`: one forward pass that
/// yields matched elements and folded runs of unmatched symbols, in input
/// order. The sole entry point the engine offers to presentation code.
pub fn segment<'a>(trie: &'a Trie<Element>, word: &[char]) -> (r: Vec<
    Result<&'a Element, Vec<char>>,
>)
    requires
        advances_in_bounds(*trie),
    ensures
        results_view(r@) == seg_spec(*trie, word@),
{
    proof {
        assert(word@.skip(0) =~= word@);
    }
    segment_at(trie, word, 0)
}

fn segment_at<'a>(trie: &'a Trie<Element>, word: &[char], i: usize) -> (r: Vec<
    Result<&'a Element, Vec<char>>,
>)
    requires
        advances_in_bounds(*trie),
        i <= word@.len(),
    ensures
        results_view(r@) == seg_spec(*trie, word@.skip(i as int)),
    decreases word@.len() - i,
{
    let ghost rem_spec = word@.skip(i as int);
    if i == word.len() {
        let r: Vec<Result<&'a Element, Vec<char>>> = Vec::new();
        proof {
            assert(rem_spec =~= Seq::<char>::empty());
            assert(results_view(r@) =~= Seq::<Result<ElementData, Seq<char>>>::empty());
        }
        return r;
    }
    proof {
        assert(rem_spec.len() > 0);
        assert(rem_spec[0] == word@[i as int]);
        assert(rem_spec.skip(1) =~= word@.skip(i as int + 1));
    }
    let rem = &word[i..word.len()];
    proof {
        assert(rem@ =~= rem_spec);
    }
    match trie.best_match(rem) {
        Some(e) => {
            proof {
                assert(trie.best_match_spec(rem_spec) matches Some(f) && f == *e);
            }
            let n: usize = e.short.as_str().unicode_len();
            proof {
                assert(1 <= n <= rem_spec.len());
                assert(match_step(*trie, rem_spec) == n as int);
                assert(rem_spec.skip(n as int) =~= word@.skip(i as int + n as int));
            }
            let mut rest = segment_at(trie, word, i + n);
            rest.insert(0, Ok(e));
            proof {
                assert(results_view(rest@) =~= seq![Ok::<ElementData, Seq<char>>(e@)] + seg_spec(
                    *trie,
                    rem_spec.skip(n as int),
                ));
                assert(results_view(rest@) =~= seg_spec(*trie, rem_spec));
            }
            rest
        },
        None => {
            let c = word[i];
            let mut rest = segment_at(trie, word, i + 1);
            let ghost rest_spec = seg_spec(*trie, rem_spec.skip(1));
            if rest.len() > 0 {
                let ghost pre_rest = rest@;
                let first = rest.remove(0);
                proof {
                    assert(rest@ =~= pre_rest.skip(1));
                    assert(results_view(rest@) =~= rest_spec.skip(1));
                    assert(results_view(pre_rest)[0] == rest_spec[0]);
                }
                match first {
                    Err(mut run) => {
                        proof {
                            assert(rest_spec[0] is Err && rest_spec[0]->Err_0 == run@);
                        }
                        run.insert(0, c);
                        proof {
                            assert(run@ =~= seq![rem_spec[0]] + rest_spec[0]->Err_0);
                        }
                        rest.insert(0, Err(run));
                        proof {
                            assert(results_view(rest@) =~= seq![
                                Err::<ElementData, Seq<char>>(
                                    seq![rem_spec[0]] + rest_spec[0]->Err_0,
                                ),
                            ] + rest_spec.skip(1));
                            assert(results_view(rest@) =~= seg_spec(*trie, rem_spec));
                        }
                    },
                    Ok(e2) => {
                        rest.insert(0, Ok(e2));
                        let mut v: Vec<char> = Vec::new();
                        v.push(c);
                        rest.insert(0, Err(v));
                        proof {
                            assert(results_view(rest@) =~= seq![
                                Err::<ElementData, Seq<char>>(seq![rem_spec[0]]),
                            ] + rest_spec);
                            assert(results_view(rest@) =~= seg_spec(*trie, rem_spec));
                        }
                    },
                }
            } else {
                let mut v: Vec<char> = Vec::new();
                v.push(c);
                rest.push(Err(v));
                proof {
                    assert(results_view(rest@) =~= seq![
                        Err::<ElementData, Seq<char>>(seq![rem_spec[0]]),
                    ] + rest_spec);
                    assert(results_view(rest@) =~= seg_spec(*trie, rem_spec));
                }
            }
            rest
        },
    }
}

} // verus!
