//! Candidate filtering, decision resolution, and event dispatch.

use vstd::prelude::*;

use crate::binding::Binding;
use crate::binding::Config;
use crate::event::Button;
use crate::event::ClickEvent;
use crate::event::PressState;
use crate::event::edge_sets_equal;
use crate::event::edges_are_equals;
use crate::event::modifier_sets_equal;
use crate::event::modifiers_are_equals;
use crate::compare_angles::compare_angles_with_offset;
use crate::compare_angles::lemma_shape_score_bounds;
use crate::compare_angles::shape_score;

verus! {

/// Absolute threshold: a shape binding can only win with a score strictly
/// below this.
pub const DIFF_MAX: u64 = 600;

/// Ambiguity guard: the runner-up must trail the best score by more than
/// this, or no shape binding is chosen.
pub const DIFF_MIN_WITH_SECOND: u64 = 50;

/// Coarse sanity ceiling on scores kept for ranking and diagnostics.  Far
/// above [`DIFF_MAX`], so it never changes which candidate wins.
pub const DIFF_MAX_PRINT: u64 = 300_000;

/// A traced shape this short is noise, not an intended gesture: the shape
/// path only runs on strictly longer traces.
pub const SHAPE_MIN_SIZE: usize = 10;

/// A binding is structurally compatible with an event when the buttons
/// match, the press state matches (`Click` on the binding side matches
/// either half of the cycle), the edge and modifier sets are equal, and a
/// gesture-bearing binding is only considered once the gesture can be
/// complete: on the shape button and never on the bare `Press`.
pub open spec fn is_candidate(b: Binding, ev: ClickEvent, shape_button: Button) -> bool {
    &&& (b.event.shape@.len() == 0 || (ev.button == shape_button && ev.event_type
        != PressState::Press))
    &&& b.event.button == ev.button
    &&& (b.event.event_type == ev.event_type || b.event.event_type == PressState::Click)
    &&& edge_sets_equal(b.event.edges@, ev.edges@)
    &&& modifier_sets_equal(b.event.modifiers@, ev.modifiers@)
}

/// The indices of the first `n` bindings that are candidates for `ev`, in
/// table order.
pub open spec fn candidate_seq(bindings: Seq<Binding>, ev: ClickEvent, sb: Button, n: int) -> Seq<
    usize,
>
    recommends
        0 <= n <= bindings.len(),
    decreases n,
{
    if n <= 0 {
        Seq::empty()
    } else {
        let prefix = candidate_seq(bindings, ev, sb, n - 1);
        if is_candidate(bindings[n - 1], ev, sb) {
            prefix.push((n - 1) as usize)
        } else {
            prefix
        }
    }
}

/// The candidate index sequence lists, in strictly ascending order,
/// exactly the indices below `n` whose binding is a candidate.
pub proof fn lemma_candidate_seq_props(bindings: Seq<Binding>, ev: ClickEvent, sb: Button, n: int)
    requires
        0 <= n <= bindings.len(),
        bindings.len() <= usize::MAX,
    ensures
        forall|k: int|
            0 <= k < candidate_seq(bindings, ev, sb, n).len() ==> (#[trigger] candidate_seq(
                bindings,
                ev,
                sb,
                n,
            )[k]) < n && is_candidate(
                bindings[candidate_seq(bindings, ev, sb, n)[k] as int],
                ev,
                sb,
            ),
        forall|k1: int, k2: int|
            0 <= k1 < k2 < candidate_seq(bindings, ev, sb, n).len() ==> #[trigger] candidate_seq(
                bindings,
                ev,
                sb,
                n,
            )[k1] < #[trigger] candidate_seq(bindings, ev, sb, n)[k2],
        forall|c: usize|
            #[trigger] candidate_seq(bindings, ev, sb, n).contains(c) <==> (c < n && is_candidate(
                bindings[c as int],
                ev,
                sb,
            )),
    decreases n,
{
    let s = candidate_seq(bindings, ev, sb, n);
    if n > 0 {
        let prefix = candidate_seq(bindings, ev, sb, n - 1);
        lemma_candidate_seq_props(bindings, ev, sb, n - 1);
        if is_candidate(bindings[n - 1], ev, sb) {
            assert(s == prefix.push((n - 1) as usize));
            assert forall|c: usize| #[trigger] s.contains(c) implies (c < n && is_candidate(
                bindings[c as int],
                ev,
                sb,
            )) by {
                let i = choose|i: int| 0 <= i < s.len() && s[i] == c;
                if i < prefix.len() {
                    assert(prefix.contains(c));
                } else {
                    assert(c == (n - 1) as usize);
                    assert(c as int == n - 1);
                }
            }
            assert forall|c: usize| (c < n && is_candidate(bindings[c as int], ev, sb)) implies (
            #[trigger] s.contains(c)) by {
                if c < n - 1 {
                    assert(prefix.contains(c));
                    let i = choose|i: int| 0 <= i < prefix.len() && prefix[i] == c;
                    assert(s[i] == c);
                    assert(s.contains(c));
                } else {
                    assert(c as int == n - 1);
                    assert(s[prefix.len() as int] == c);
                    assert(s.contains(c));
                }
            }
        } else {
            assert(s == prefix);
            assert forall|c: usize| #[trigger] s.contains(c) implies (c < n && is_candidate(
                bindings[c as int],
                ev,
                sb,
            )) by {
                assert(prefix.contains(c));
            }
            assert forall|c: usize| (c < n && is_candidate(bindings[c as int], ev, sb)) implies (
            #[trigger] s.contains(c)) by {
                assert(c < n - 1);
                assert(prefix.contains(c));
            }
        }
    }
}

fn is_candidate_exec(b: &Binding, ev: &ClickEvent, shape_button: Button) -> (r: bool)
    ensures
        r == is_candidate(*b, *ev, shape_button),
{
    (b.event.shape.len() == 0 || (ev.button == shape_button && ev.event_type != PressState::Press))
        && b.event.button == ev.button && (b.event.event_type == ev.event_type
        || b.event.event_type == PressState::Click) && edges_are_equals(&b.event.edges, &ev.edges)
        && modifiers_are_equals(&b.event.modifiers, &ev.modifiers)
}

/// Filter the binding table of `config`: keep, in table order, the indices
/// of the bindings compatible with `event`.
pub fn find_candidates(config: &Config, event: &ClickEvent) -> (r: Vec<usize>)
    ensures
        r@ == candidate_seq(
            config.bindings@,
            *event,
            config.shape_button,
            config.bindings@.len() as int,
        ),
        forall|k: int|
            0 <= k < r@.len() ==> (#[trigger] r@[k]) < config.bindings@.len() && is_candidate(
                config.bindings@[r@[k] as int],
                *event,
                config.shape_button,
            ),
        forall|k1: int, k2: int| 0 <= k1 < k2 < r@.len() ==> r@[k1] < r@[k2],
        forall|c: usize|
            #[trigger] r@.contains(c) <==> (c < config.bindings@.len() && is_candidate(
                config.bindings@[c as int],
                *event,
                config.shape_button,
            )),
{
    let ghost bs = config.bindings@;
    let ghost sb = config.shape_button;
    let mut r: Vec<usize> = Vec::new();
    let mut i: usize = 0;
    while i < config.bindings.len()
        invariant
            i <= bs.len(),
            bs == config.bindings@,
            sb == config.shape_button,
            r@ == candidate_seq(bs, *event, sb, i as int),
        decreases bs.len() - i,
    {
        if is_candidate_exec(&config.bindings[i], event, config.shape_button) {
            r.push(i);
        }
        i = i + 1;
    }
    proof {
        lemma_candidate_seq_props(bs, *event, sb, bs.len() as int);
    }
    r
}

/// A candidate that carries a gesture pattern.
pub open spec fn is_shape_candidate(bindings: Seq<Binding>, cands: Seq<usize>, c: usize) -> bool {
    cands.contains(c) && c < bindings.len() && bindings[c as int].event.shape@.len() > 0
}

/// The dissimilarity score of candidate `c`'s pattern against the traced
/// shape of `ev`.
pub open spec fn score_of(bindings: Seq<Binding>, ev: ClickEvent, c: usize) -> int
    recommends
        c < bindings.len(),
        ev.shape@.len() > 0,
        bindings[c as int].event.shape@.len() > 0,
{
    shape_score(ev.shape@, bindings[c as int].event.shape@)
}

/// A shape candidate that survives the diagnostic ceiling and is therefore
/// kept for ranking.
pub open spec fn kept_shape_candidate(
    bindings: Seq<Binding>,
    cands: Seq<usize>,
    ev: ClickEvent,
    c: usize,
) -> bool {
    is_shape_candidate(bindings, cands, c) && score_of(bindings, ev, c) < DIFF_MAX_PRINT as int
}

/// Place a fresh entry into a score-ranked list, keeping the ranking: the
/// list afterwards holds exactly the old entries plus the new one.
#[verifier::rlimit(100)]
fn insert_ranked(out: &mut Vec<(usize, u64)>, c: usize, s: u64)
    requires
        forall|k1: int, k2: int|
            0 <= k1 < k2 < old(out)@.len() ==> old(out)@[k1].1 <= old(out)@[k2].1,
        forall|k1: int, k2: int|
            0 <= k1 < k2 < old(out)@.len() ==> old(out)@[k1].0 != old(out)@[k2].0,
        forall|k: int| 0 <= k < old(out)@.len() ==> (#[trigger] old(out)@[k]).0 != c,
    ensures
        final(out)@.len() == old(out)@.len() + 1,
        forall|k1: int, k2: int|
            0 <= k1 < k2 < final(out)@.len() ==> final(out)@[k1].1 <= final(out)@[k2].1,
        forall|k1: int, k2: int|
            0 <= k1 < k2 < final(out)@.len() ==> final(out)@[k1].0 != final(out)@[k2].0,
        forall|k: int|
            0 <= k < old(out)@.len() ==> exists|k2: int|
                0 <= k2 < final(out)@.len() && final(out)@[k2] == (#[trigger] old(out)@[k]),
        exists|k: int| 0 <= k < final(out)@.len() && (#[trigger] final(out)@[k]) == (c, s),
        forall|k: int|
            0 <= k < final(out)@.len() ==> (#[trigger] final(out)@[k]) == (c, s) || exists|k2: int|
                0 <= k2 < old(out)@.len() && old(out)@[k2] == final(out)@[k],
{
    let ghost pre = out@;
    let mut pos: usize = 0;
    while pos < out.len() && out[pos].1 <= s
        invariant
            pre == out@,
            pos <= out@.len(),
            forall|k: int| 0 <= k < pos ==> (#[trigger] out@[k]).1 <= s,
        decreases out@.len() - pos,
    {
        pos = pos + 1;
    }
    proof {
        assert forall|k: int| pos <= k < pre.len() implies (#[trigger] pre[k]).1 > s by {
            if k > pos {
                assert(pre[pos as int].1 <= pre[k].1);
            }
        }
    }
    out.insert(pos, (c, s));
    proof {
        pre.insert_ensures(pos as int, (c, s));
        let new_out = out@;
        assert(new_out == pre.insert(pos as int, (c, s)));
        assert forall|k: int| 0 <= k < pre.len() implies exists|k2: int|
            0 <= k2 < new_out.len() && new_out[k2] == (#[trigger] pre[k]) by {
            if k < pos {
                assert(new_out[k] == pre[k]);
            } else {
                assert(new_out[k + 1] == pre[k]);
            }
        }
        assert(new_out[pos as int] == (c, s));
        assert forall|k: int| 0 <= k < new_out.len() && k != pos implies exists|k2: int|
            0 <= k2 < pre.len() && pre[k2] == (#[trigger] new_out[k]) by {
            if k < pos {
                assert(pre[k] == new_out[k]);
            } else {
                assert(pre[k - 1] == new_out[k]);
            }
        }
    }
}

/// Score every gesture-bearing candidate against the traced shape and rank
/// the survivors of the diagnostic ceiling by ascending score: the best
/// match comes first.
#[verifier::rlimit(100)]
pub fn find_candidates_with_shape_with_offset(
    config: &Config,
    candidates: &Vec<usize>,
    event: &ClickEvent,
) -> (r: Vec<(usize, u64)>)
    requires
        event.shape@.len() > 0,
        forall|k: int|
            0 <= k < candidates@.len() ==> (#[trigger] candidates@[k]) < config.bindings@.len(),
        forall|k1: int, k2: int|
            0 <= k1 < k2 < candidates@.len() ==> candidates@[k1] < candidates@[k2],
    ensures
        forall|k: int|
            0 <= k < r@.len() ==> is_shape_candidate(
                config.bindings@,
                candidates@,
                (#[trigger] r@[k]).0,
            ) && r@[k].1 as int == score_of(config.bindings@, *event, r@[k].0) && r@[k].1
                < DIFF_MAX_PRINT,
        forall|c: usize|
            #[trigger] kept_shape_candidate(config.bindings@, candidates@, *event, c)
                ==> exists|k: int| 0 <= k < r@.len() && (#[trigger] r@[k]).0 == c,
        forall|k1: int, k2: int| 0 <= k1 < k2 < r@.len() ==> r@[k1].1 <= r@[k2].1,
        forall|k1: int, k2: int| 0 <= k1 < k2 < r@.len() ==> r@[k1].0 != r@[k2].0,
{
    let ghost bs = config.bindings@;
    let ghost cs = candidates@;
    let ghost ev = *event;
    let mut out: Vec<(usize, u64)> = Vec::new();
    let mut ci: usize = 0;
    while ci < candidates.len()
        invariant
            bs == config.bindings@,
            cs == candidates@,
            ev == *event,
            ev.shape@.len() > 0,
            ci <= cs.len(),
            forall|k: int| 0 <= k < cs.len() ==> (#[trigger] cs[k]) < bs.len(),
            forall|k1: int, k2: int| 0 <= k1 < k2 < cs.len() ==> cs[k1] < cs[k2],
            forall|k: int|
                0 <= k < out@.len() ==> is_shape_candidate(bs, cs, (#[trigger] out@[k]).0)
                    && out@[k].1 as int == score_of(bs, ev, out@[k].0) && out@[k].1
                    < DIFF_MAX_PRINT,
            forall|m: int|
                0 <= m < ci && kept_shape_candidate(bs, cs, ev, #[trigger] cs[m]) ==> exists|k: int|
                    0 <= k < out@.len() && (#[trigger] out@[k]).0 == cs[m],
            ci == 0 ==> out@.len() == 0,
            ci > 0 ==> forall|k: int| 0 <= k < out@.len() ==> (#[trigger] out@[k]).0 <= cs[ci - 1],
            forall|k1: int, k2: int| 0 <= k1 < k2 < out@.len() ==> out@[k1].1 <= out@[k2].1,
            forall|k1: int, k2: int| 0 <= k1 < k2 < out@.len() ==> out@[k1].0 != out@[k2].0,
        decreases cs.len() - ci,
    {
        let c = candidates[ci];
        proof {
            assert(cs.contains(c)) by {
                assert(cs[ci as int] == c);
            }
            assert forall|k: int| 0 <= k < out@.len() implies (#[trigger] out@[k]).0 != c by {
                if ci > 0 {
                    assert(cs[ci - 1] < cs[ci as int]);
                }
            }
        }
        if config.bindings[c].event.shape.len() > 0 {
            let s = compare_angles_with_offset(&event.shape, &config.bindings[c].event.shape);
            if s < DIFF_MAX_PRINT {
                let ghost old_out = out@;
                insert_ranked(&mut out, c, s);
                proof {
                    let new_out = out@;
                    // each entry is the fresh one or carries over, with its
                    // per-entry facts
                    assert forall|k: int| 0 <= k < new_out.len() implies is_shape_candidate(
                        bs,
                        cs,
                        (#[trigger] new_out[k]).0,
                    ) && new_out[k].1 as int == score_of(bs, ev, new_out[k].0) && new_out[k].1
                        < DIFF_MAX_PRINT && new_out[k].0 <= cs[ci as int] by {
                        if new_out[k] != (c, s) {
                            let k2 = choose|k2: int|
                                0 <= k2 < old_out.len() && old_out[k2] == new_out[k];
                            assert(is_shape_candidate(bs, cs, old_out[k2].0));
                            if ci > 0 {
                                assert(old_out[k2].0 <= cs[ci - 1]);
                                assert(cs[ci - 1] < cs[ci as int]);
                            }
                        }
                    }
                    assert forall|m: int|
                        0 <= m < ci + 1 && kept_shape_candidate(bs, cs, ev, #[trigger] cs[m])
                        implies exists|k: int|
                        0 <= k < new_out.len() && (#[trigger] new_out[k]).0 == cs[m] by {
                        if m < ci {
                            let k0 = choose|k0: int|
                                0 <= k0 < old_out.len() && (#[trigger] old_out[k0]).0 == cs[m];
                            let k2 = choose|k2: int|
                                0 <= k2 < new_out.len() && new_out[k2] == old_out[k0];
                            assert(new_out[k2].0 == cs[m]);
                        } else {
                            let k = choose|k: int|
                                0 <= k < new_out.len() && (#[trigger] new_out[k]) == (c, s);
                            assert(new_out[k].0 == cs[m]);
                        }
                    }
                }
            } else {
                proof {
                    assert(!kept_shape_candidate(bs, cs, ev, c));
                }
            }
        } else {
            proof {
                assert(!is_shape_candidate(bs, cs, c));
                assert(!kept_shape_candidate(bs, cs, ev, c));
            }
        }
        proof {
            if ci > 0 {
                assert(cs[ci - 1] < cs[ci as int]);
            }
        }
        ci = ci + 1;
    }
    out
}

/// The shape path picks `w` exactly when the trace is long enough to be a
/// gesture, `w`'s pattern scores below the absolute threshold, and every
/// other gesture-bearing candidate trails it by more than the ambiguity
/// guard.
pub open spec fn shape_winner_cond(
    bindings: Seq<Binding>,
    cands: Seq<usize>,
    ev: ClickEvent,
    w: usize,
) -> bool {
    &&& ev.shape@.len() > SHAPE_MIN_SIZE
    &&& is_shape_candidate(bindings, cands, w)
    &&& score_of(bindings, ev, w) < DIFF_MAX as int
    &&& forall|c: usize|
        #[trigger] is_shape_candidate(bindings, cands, c) && c != w ==> score_of(bindings, ev, c)
            - score_of(bindings, ev, w) > DIFF_MIN_WITH_SECOND as int
}

/// At most one candidate can satisfy the shape winner condition: two
/// winners would each have to trail the other by the ambiguity guard.
pub proof fn lemma_shape_winner_unique(
    bindings: Seq<Binding>,
    cands: Seq<usize>,
    ev: ClickEvent,
    w1: usize,
    w2: usize,
)
    requires
        shape_winner_cond(bindings, cands, ev, w1),
        shape_winner_cond(bindings, cands, ev, w2),
    ensures
        w1 == w2,
{
    if w1 != w2 {
        assert(is_shape_candidate(bindings, cands, w1));
        assert(is_shape_candidate(bindings, cands, w2));
        assert(score_of(bindings, ev, w2) - score_of(bindings, ev, w1)
            > DIFF_MIN_WITH_SECOND as int);
        assert(score_of(bindings, ev, w1) - score_of(bindings, ev, w2)
            > DIFF_MIN_WITH_SECOND as int);
    }
}

/// Shape path of the decision: rank the gesture-bearing candidates and
/// pick the best match, unless the trace is too short, the best score
/// misses the absolute threshold, or the runner-up is too close.
pub fn find_the_chosen_one_among_the_candidates_with_shape(
    config: &Config,
    candidates: &Vec<usize>,
    event: &ClickEvent,
) -> (r: Option<usize>)
    requires
        forall|k: int|
            0 <= k < candidates@.len() ==> (#[trigger] candidates@[k]) < config.bindings@.len(),
        forall|k1: int, k2: int|
            0 <= k1 < k2 < candidates@.len() ==> candidates@[k1] < candidates@[k2],
    ensures
        match r {
            Some(w) => shape_winner_cond(config.bindings@, candidates@, *event, w),
            None => forall|w: usize| !shape_winner_cond(config.bindings@, candidates@, *event, w),
        },
        event.shape@.len() <= SHAPE_MIN_SIZE ==> r is None,
{
    let ghost bs = config.bindings@;
    let ghost cs = candidates@;
    let ghost ev = *event;
    if event.shape.len() > SHAPE_MIN_SIZE {
        let ranked = find_candidates_with_shape_with_offset(config, candidates, event);
        if ranked.len() == 0 {
            proof {
                assert forall|w: usize| !shape_winner_cond(bs, cs, ev, w) by {
                    if shape_winner_cond(bs, cs, ev, w) {
                        assert(kept_shape_candidate(bs, cs, ev, w));
                    }
                }
            }
            None
        } else {
            let best = ranked[0];
            if best.1 < DIFF_MAX && (ranked.len() == 1 || {
                let second = ranked[1];
                second.1 - best.1 > DIFF_MIN_WITH_SECOND
            }) {
                proof {
                    let rk = ranked@;
                    assert forall|c: usize|
                        #[trigger] is_shape_candidate(bs, cs, c) && c != best.0 implies score_of(
                        bs,
                        ev,
                        c,
                    ) - score_of(bs, ev, best.0) > DIFF_MIN_WITH_SECOND as int by {
                        if score_of(bs, ev, c) < DIFF_MAX_PRINT as int {
                            assert(kept_shape_candidate(bs, cs, ev, c));
                            let k = choose|k: int| 0 <= k < rk.len() && (#[trigger] rk[k]).0 == c;
                            assert(k != 0);
                            assert(rk[0].1 <= rk[k].1);
                            if rk.len() > 1 {
                                assert(rk[1].1 <= rk[k].1);
                            }
                        }
                    }
                }
                Some(best.0)
            } else {
                proof {
                    let rk = ranked@;
                    assert forall|w: usize| !shape_winner_cond(bs, cs, ev, w) by {
                        if shape_winner_cond(bs, cs, ev, w) {
                            assert(kept_shape_candidate(bs, cs, ev, w));
                            let k = choose|k: int| 0 <= k < rk.len() && (#[trigger] rk[k]).0 == w;
                            assert(rk[0].1 <= rk[k].1);
                            if best.1 >= DIFF_MAX {
                                assert(score_of(bs, ev, w) >= DIFF_MAX as int);
                            } else {
                                // the runner-up is too close for any winner
                                if w == rk[0].0 {
                                    assert(is_shape_candidate(bs, cs, rk[1].0));
                                    assert(score_of(bs, ev, rk[1].0) - score_of(bs, ev, w)
                                        > DIFF_MIN_WITH_SECOND as int);
                                } else {
                                    assert(k != 0);
                                    assert(is_shape_candidate(bs, cs, rk[0].0));
                                    assert(score_of(bs, ev, rk[0].0) - score_of(bs, ev, w)
                                        > DIFF_MIN_WITH_SECOND as int);
                                    assert(rk[1].1 <= rk[k].1);
                                }
                            }
                        }
                    }
                }
                None
            }
        }
    } else {
        None
    }
}

/// A candidate whose binding carries no gesture pattern.
pub open spec fn is_no_shape_candidate(bindings: Seq<Binding>, c: usize) -> bool {
    c < bindings.len() && bindings[c as int].event.shape@.len() == 0
}

/// The candidates without a gesture pattern, in table order.
pub open spec fn no_shape_candidates(bindings: Seq<Binding>, cands: Seq<usize>) -> Seq<usize> {
    cands.filter(|c: usize| is_no_shape_candidate(bindings, c))
}

/// How many candidates carry no gesture pattern.
pub fn count_candidates_without_shape(config: &Config, candidates: &Vec<usize>) -> (n: usize)
    requires
        forall|k: int|
            0 <= k < candidates@.len() ==> (#[trigger] candidates@[k]) < config.bindings@.len(),
    ensures
        n as int == no_shape_candidates(config.bindings@, candidates@).len(),
{
    let ghost bs = config.bindings@;
    let ghost cs = candidates@;
    let ghost pred = |c: usize| is_no_shape_candidate(bs, c);
    let mut n: usize = 0;
    let mut i: usize = 0;
    while i < candidates.len()
        invariant
            bs == config.bindings@,
            cs == candidates@,
            i <= cs.len(),
            forall|k: int| 0 <= k < cs.len() ==> (#[trigger] cs[k]) < bs.len(),
            pred == (|c: usize| is_no_shape_candidate(bs, c)),
            n as int == cs.subrange(0, i as int).filter(pred).len(),
            n <= i,
        decreases cs.len() - i,
    {
        let c = candidates[i];
        proof {
            reveal(Seq::filter);
            assert(cs.subrange(0, i as int + 1).drop_last() =~= cs.subrange(0, i as int));
            assert(cs.subrange(0, i as int + 1).last() == cs[i as int]);
        }
        if config.bindings[c].event.shape.len() == 0 {
            n = n + 1;
        }
        i = i + 1;
    }
    proof {
        assert(cs.subrange(0, cs.len() as int) =~= cs);
    }
    n
}

/// No-shape path of the decision: a candidate without a gesture pattern
/// wins exactly when it is the only one; several such candidates are a
/// configuration ambiguity and none is chosen.
pub fn find_the_chosen_one_among_the_candidates_without_shape(
    config: &Config,
    candidates: &Vec<usize>,
) -> (r: Option<usize>)
    requires
        forall|k: int|
            0 <= k < candidates@.len() ==> (#[trigger] candidates@[k]) < config.bindings@.len(),
    ensures
        ({
            let ns = no_shape_candidates(config.bindings@, candidates@);
            r == if ns.len() == 1 {
                Some(ns[0])
            } else {
                None::<usize>
            }
        }),
{
    let ghost bs = config.bindings@;
    let ghost cs = candidates@;
    let ghost pred = |c: usize| is_no_shape_candidate(bs, c);
    let mut n: usize = 0;
    let mut found: Option<usize> = None;
    let mut i: usize = 0;
    while i < candidates.len()
        invariant
            bs == config.bindings@,
            cs == candidates@,
            i <= cs.len(),
            forall|k: int| 0 <= k < cs.len() ==> (#[trigger] cs[k]) < bs.len(),
            pred == (|c: usize| is_no_shape_candidate(bs, c)),
            n as int == cs.subrange(0, i as int).filter(pred).len(),
            n <= i,
            n == 0 <==> found is None,
            n > 0 ==> found == Some(cs.subrange(0, i as int).filter(pred)[0]),
        decreases cs.len() - i,
    {
        let c = candidates[i];
        proof {
            reveal(Seq::filter);
            assert(cs.subrange(0, i as int + 1).drop_last() =~= cs.subrange(0, i as int));
            assert(cs.subrange(0, i as int + 1).last() == cs[i as int]);
        }
        if config.bindings[c].event.shape.len() == 0 {
            if n == 0 {
                found = Some(c);
            }
            proof {
                let prev = cs.subrange(0, i as int).filter(pred);
                assert(cs.subrange(0, i as int + 1).filter(pred) == prev.push(cs[i as int]));
                if n > 0 {
                    assert(prev.push(cs[i as int])[0] == prev[0]);
                }
            }
            n = n + 1;
        }
        i = i + 1;
    }
    proof {
        assert(cs.subrange(0, cs.len() as int) =~= cs);
    }
    if n == 1 {
        found
    } else {
        None
    }
}

/// Pick at most one winner: the shape path first, and only when it chooses
/// nobody, the no-shape path.
pub open spec fn winner_spec(bindings: Seq<Binding>, cands: Seq<usize>, ev: ClickEvent) -> Option<
    usize,
> {
    if exists|w: usize| shape_winner_cond(bindings, cands, ev, w) {
        Some(choose|w: usize| shape_winner_cond(bindings, cands, ev, w))
    } else {
        let ns = no_shape_candidates(bindings, cands);
        if ns.len() == 1 {
            Some(ns[0])
        } else {
            None
        }
    }
}

/// The decision resolver: the shape path is tried first; when it refuses
/// to choose, the no-shape path may still pick the lone pattern-free
/// candidate.
pub fn find_the_chosen_one_among_the_candidates(
    config: &Config,
    candidates: &Vec<usize>,
    event: &ClickEvent,
) -> (r: Option<usize>)
    requires
        forall|k: int|
            0 <= k < candidates@.len() ==> (#[trigger] candidates@[k]) < config.bindings@.len(),
        forall|k1: int, k2: int|
            0 <= k1 < k2 < candidates@.len() ==> candidates@[k1] < candidates@[k2],
    ensures
        r == winner_spec(config.bindings@, candidates@, *event),
{
    let ghost bs = config.bindings@;
    let ghost cs = candidates@;
    let ghost ev = *event;
    let with_shape = find_the_chosen_one_among_the_candidates_with_shape(
        config,
        candidates,
        event,
    );
    match with_shape {
        Some(w) => {
            proof {
                let w2 = choose|w2: usize| shape_winner_cond(bs, cs, ev, w2);
                lemma_shape_winner_unique(bs, cs, ev, w, w2);
            }
            Some(w)
        },
        None => find_the_chosen_one_among_the_candidates_without_shape(config, candidates),
    }
}

/// What an event resolution asks the caller to do.
#[derive(Debug)]
pub enum EventAction {
    /// Launch this argv asynchronously, fire-and-forget.
    RunCommand(Vec<String>),
    /// Replay a suppressed plain click of this button: synthesize a press,
    /// then a release, separated by a short fixed delay.
    SynthesizeClick(Button),
    /// Nothing to do beyond the propagation decision.
    NoAction,
}

/// The externally observable outcome of resolving one event.
#[derive(Debug)]
pub struct Resolution {
    /// Index into the binding table of the winning binding, if any.
    pub winner: Option<usize>,
    /// Whether the raw event is still delivered to the rest of the
    /// desktop.
    pub propagate: bool,
    pub action: EventAction,
    /// Several pattern-free candidates were equally eligible: the binding
    /// set is under-specified, and the caller should warn about it.
    pub no_shape_ambiguity: bool,
}

/// The candidate indices of an event under a configuration.
pub open spec fn event_candidates(config: Config, ev: ClickEvent) -> Seq<usize> {
    candidate_seq(config.bindings@, ev, config.shape_button, config.bindings@.len() as int)
}

/// The winning binding of an event under a configuration, if any.
pub open spec fn event_winner(config: Config, ev: ClickEvent) -> Option<usize> {
    winner_spec(config.bindings@, event_candidates(config, ev), ev)
}

/// The release leg of a click cycle whose command already ran at the
/// press: a `Click`-type, pattern-free winner matched this button's press
/// before, so the release must not fire the command again.
pub open spec fn suppressed_click_release(bindings: Seq<Binding>, ev: ClickEvent, w: usize) -> bool
    recommends
        w < bindings.len(),
{
    ev.event_type == PressState::Release && bindings[w as int].event.event_type
        == PressState::Click && bindings[w as int].event.shape@.len() == 0
}

/// An event launches a command exactly when a binding wins and the win is
/// not the second leg of an already-fired click cycle.
pub open spec fn fires_command(config: Config, ev: ClickEvent) -> bool {
    match event_winner(config, ev) {
        Some(w) => !suppressed_click_release(config.bindings@, ev, w),
        None => false,
    }
}

/// A release of the shape button that no binding claimed: the suppressed
/// plain click is replayed so the desktop still sees it.
pub open spec fn synthesizes_click(config: Config, ev: ClickEvent) -> bool {
    &&& event_winner(config, ev) is None
    &&& ev.event_type == PressState::Release
    &&& ev.button == config.shape_button
}

/// An event reaches the rest of the desktop unchanged exactly when nothing
/// won and no click is being replayed.
pub open spec fn propagates(config: Config, ev: ClickEvent) -> bool {
    event_winner(config, ev) is None && !synthesizes_click(config, ev)
}

/// The configuration is ambiguous for this event: the shape path chose
/// nobody and two or more pattern-free candidates were equally eligible.
pub open spec fn ambiguous_without_shape(config: Config, ev: ClickEvent) -> bool {
    let cands = event_candidates(config, ev);
    &&& !(exists|w: usize| shape_winner_cond(config.bindings@, cands, ev, w))
    &&& no_shape_candidates(config.bindings@, cands).len() >= 2
}

fn copy_cmd(cmd: &Vec<String>) -> (r: Vec<String>)
    ensures
        r@ == cmd@,
{
    let mut r: Vec<String> = Vec::new();
    let mut i: usize = 0;
    while i < cmd.len()
        invariant
            i <= cmd.len(),
            r@.len() == i as int,
            forall|k: int| 0 <= k < i ==> r@[k] == cmd@[k],
        decreases cmd.len() - i,
    {
        r.push(cmd[i].clone());
        i = i + 1;
    }
    proof {
        assert(r@ =~= cmd@);
    }
    r
}

/// Resolve one event: filter the binding table, run the decision resolver
/// over the candidates, and decide the externally observable outcome.
///
/// The caller owns the side effects the resolution names: launching the
/// command without waiting for it, replaying the synthetic press and
/// release in that order with the short delay between them, warning about
/// an ambiguous configuration, and delivering or swallowing the raw event
/// as `propagate` says.
pub fn resolve_event(config: &Config, event: &ClickEvent) -> (r: Resolution)
    ensures
        r.winner == event_winner(*config, *event),
        r.propagate == propagates(*config, *event),
        (r.action is RunCommand) == fires_command(*config, *event),
        fires_command(*config, *event) ==> (r.action matches EventAction::RunCommand(cmd)
            && event_winner(*config, *event) matches Some(w) && cmd@ == config.bindings@[w as int].cmd@),
        (r.action is SynthesizeClick) == synthesizes_click(*config, *event),
        synthesizes_click(*config, *event) ==> r.action == EventAction::SynthesizeClick(
            config.shape_button,
        ),
        r.no_shape_ambiguity == ambiguous_without_shape(*config, *event),
{
    let ghost bs = config.bindings@;
    let ghost cfg = *config;
    let ghost ev = *event;
    let candidates = find_candidates(config, event);
    let winner = find_the_chosen_one_among_the_candidates(config, &candidates, event);
    proof {
        assert(candidates@ == event_candidates(cfg, ev));
        assert(winner == event_winner(cfg, ev));
    }
    match winner {
        Some(w) => {
            proof {
                if exists|w2: usize| shape_winner_cond(bs, candidates@, ev, w2) {
                    assert(shape_winner_cond(bs, candidates@, ev, w));
                } else {
                    assert(no_shape_candidates(bs, candidates@).len() == 1);
                    candidates@.lemma_filter_pred(|c: usize| is_no_shape_candidate(bs, c), 0);
                    assert(is_no_shape_candidate(bs, w));
                }
                assert(w < bs.len());
            }
            let b = &config.bindings[w];
            if event.event_type == PressState::Release && b.event.event_type == PressState::Click
                && b.event.shape.len() == 0 {
                Resolution {
                    winner: Some(w),
                    propagate: false,
                    action: EventAction::NoAction,
                    no_shape_ambiguity: false,
                }
            } else {
                Resolution {
                    winner: Some(w),
                    propagate: false,
                    action: EventAction::RunCommand(copy_cmd(&b.cmd)),
                    no_shape_ambiguity: false,
                }
            }
        },
        None => {
            let n = count_candidates_without_shape(config, &candidates);
            if event.event_type == PressState::Release && event.button == config.shape_button {
                Resolution {
                    winner: None,
                    propagate: false,
                    action: EventAction::SynthesizeClick(config.shape_button),
                    no_shape_ambiguity: n >= 2,
                }
            } else {
                Resolution {
                    winner: None,
                    propagate: true,
                    action: EventAction::NoAction,
                    no_shape_ambiguity: n >= 2,
                }
            }
        },
    }
}

/// The set of bindings that are candidates for an event: a property of the
/// binding table as a set, blind to declaration order.
pub open spec fn candidate_binding_set(bindings: Seq<Binding>, ev: ClickEvent, sb: Button) -> Set<
    Binding,
> {
    bindings.to_set().filter(|b: Binding| is_candidate(b, ev, sb))
}

/// Candidate Filter law: which bindings are candidates is independent of
/// the order the bindings were declared in.  Two tables holding the same
/// bindings yield the same candidate set for every event.
pub proof fn lemma_candidate_set_order_independent(
    b1: Seq<Binding>,
    b2: Seq<Binding>,
    ev: ClickEvent,
    sb: Button,
)
    requires
        b1.to_multiset() == b2.to_multiset(),
    ensures
        candidate_binding_set(b1, ev, sb) == candidate_binding_set(b2, ev, sb),
{
    b1.to_multiset_ensures();
    b2.to_multiset_ensures();
    assert forall|x: Binding| b1.contains(x) == b2.contains(x) by {
        assert(b1.to_multiset().count(x) == b2.to_multiset().count(x));
        assert(b1.contains(x) <==> b1.to_multiset().count(x) > 0);
        assert(b2.contains(x) <==> b2.to_multiset().count(x) > 0);
    }
    assert(b1.to_set() =~= b2.to_set());
    assert(candidate_binding_set(b1, ev, sb) =~= candidate_binding_set(b2, ev, sb));
}

/// The filter's index list names exactly the bindings of the candidate
/// set: the order-independent law above therefore speaks about what
/// `find_candidates` returns.
pub proof fn lemma_candidates_match_candidate_set(bindings: Seq<Binding>, ev: ClickEvent, sb: Button)
    requires
        bindings.len() <= usize::MAX,
    ensures
        forall|b: Binding|
            #[trigger] candidate_binding_set(bindings, ev, sb).contains(b) <==> exists|k: int|
                0 <= k < candidate_seq(bindings, ev, sb, bindings.len() as int).len() && bindings[(
                #[trigger] candidate_seq(bindings, ev, sb, bindings.len() as int)[k]) as int] == b,
{
    let n = bindings.len() as int;
    let s = candidate_seq(bindings, ev, sb, n);
    lemma_candidate_seq_props(bindings, ev, sb, n);
    assert forall|b: Binding| #[trigger] candidate_binding_set(bindings, ev, sb).contains(b)
        implies exists|k: int| 0 <= k < s.len() && bindings[(#[trigger] s[k]) as int] == b by {
        assert(bindings.contains(b));
        let i = choose|i: int| 0 <= i < bindings.len() && bindings[i] == b;
        assert(s.contains(i as usize));
        let k = choose|k: int| 0 <= k < s.len() && s[k] == i as usize;
        assert(bindings[s[k] as int] == b);
    }
    assert forall|b: Binding| (exists|k: int|
        0 <= k < s.len() && bindings[(#[trigger] s[k]) as int] == b) implies (
    #[trigger] candidate_binding_set(bindings, ev, sb).contains(b)) by {
        let k = choose|k: int| 0 <= k < s.len() && bindings[s[k] as int] == b;
        let c = s[k];
        assert(c < n && is_candidate(bindings[c as int], ev, sb));
        assert(bindings.contains(b));
    }
}

/// Shape path law: a trace at or below the minimum sample count is noise,
/// and the shape path never selects a binding for it.
pub proof fn lemma_short_trace_never_shape_winner(
    bindings: Seq<Binding>,
    cands: Seq<usize>,
    ev: ClickEvent,
)
    requires
        ev.shape@.len() <= SHAPE_MIN_SIZE,
    ensures
        forall|w: usize| !shape_winner_cond(bindings, cands, ev, w),
{
}

/// Shape path law: when every gesture candidate scores at or above the
/// absolute threshold `DIFF_MAX`, no shape binding is chosen, regardless
/// of the gaps between the candidates.
pub proof fn lemma_no_shape_winner_above_threshold(
    bindings: Seq<Binding>,
    cands: Seq<usize>,
    ev: ClickEvent,
)
    requires
        forall|c: usize|
            #[trigger] is_shape_candidate(bindings, cands, c) ==> score_of(bindings, ev, c)
                >= DIFF_MAX as int,
    ensures
        forall|w: usize| !shape_winner_cond(bindings, cands, ev, w),
{
    assert forall|w: usize| !shape_winner_cond(bindings, cands, ev, w) by {
        if shape_winner_cond(bindings, cands, ev, w) {
            assert(is_shape_candidate(bindings, cands, w));
        }
    }
}

/// Shape path law: when the runner-up trails the best candidate by no more
/// than the ambiguity guard `DIFF_MIN_WITH_SECOND`, no shape binding is
/// chosen, even when the best score alone would pass the absolute
/// threshold.
pub proof fn lemma_no_shape_winner_when_too_close(
    bindings: Seq<Binding>,
    cands: Seq<usize>,
    ev: ClickEvent,
    c1: usize,
    c2: usize,
)
    requires
        is_shape_candidate(bindings, cands, c1),
        is_shape_candidate(bindings, cands, c2),
        c1 != c2,
        forall|c: usize|
            #[trigger] is_shape_candidate(bindings, cands, c) ==> score_of(bindings, ev, c)
                >= score_of(bindings, ev, c1),
        score_of(bindings, ev, c2) - score_of(bindings, ev, c1) <= DIFF_MIN_WITH_SECOND as int,
    ensures
        forall|w: usize| !shape_winner_cond(bindings, cands, ev, w),
{
    assert forall|w: usize| !shape_winner_cond(bindings, cands, ev, w) by {
        if shape_winner_cond(bindings, cands, ev, w) {
            if w == c1 {
                assert(score_of(bindings, ev, c2) - score_of(bindings, ev, c1)
                    > DIFF_MIN_WITH_SECOND as int);
            } else {
                assert(score_of(bindings, ev, c1) - score_of(bindings, ev, w)
                    > DIFF_MIN_WITH_SECOND as int);
                assert(score_of(bindings, ev, w) >= score_of(bindings, ev, c1));
            }
        }
    }
}

/// Dispatch law: a `Click`-type, pattern-free binding that wins both legs
/// of a press-release cycle fires its command on the press leg and is
/// withheld on the release leg, so the command runs exactly once per
/// cycle even though the binding matches both halves.
pub proof fn lemma_click_fires_once_per_cycle(
    config: Config,
    press: ClickEvent,
    release: ClickEvent,
    w: usize,
)
    requires
        w < config.bindings@.len(),
        config.bindings@[w as int].event.event_type == PressState::Click,
        config.bindings@[w as int].event.shape@.len() == 0,
        press.event_type == PressState::Press,
        release.event_type == PressState::Release,
        event_winner(config, press) == Some(w),
        event_winner(config, release) == Some(w),
    ensures
        fires_command(config, press),
        !fires_command(config, release),
{
}

/// The diagnostic ceiling `DIFF_MAX_PRINT` never excludes a candidate:
/// every score fits far below it, for every shape and pattern length, so
/// the ceiling only bounds log volume and never changes which candidate
/// wins.
pub proof fn lemma_print_ceiling_harmless(
    bindings: Seq<Binding>,
    cands: Seq<usize>,
    ev: ClickEvent,
    c: usize,
)
    requires
        is_shape_candidate(bindings, cands, c),
        ev.shape@.len() > 0,
    ensures
        kept_shape_candidate(bindings, cands, ev, c),
{
    lemma_shape_score_bounds(ev.shape@, bindings[c as int].event.shape@);
}

} // verus!
