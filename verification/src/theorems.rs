//! What the conversion search guarantees: every result covers the whole
//! reading, results come cheapest first with distinct texts, at most as many as
//! were asked for, and at least one for any non-empty reading.

use vstd::prelude::*;
use crate::candidate::{CandidateView, SegmentCostView, SegmentView};
use crate::dictionary::{at_most, lemma_lookup_members, lookup_depth, spec_lookup_prefix, Dictionary};
use crate::engine::{
    arena_segments, arena_steps, arena_wf, distinct_texts, effective_beam, extend_entry_all,
    extend_matches, extend_unknown_all, initial_state, insert_at, insert_sorted, lemma_insert_members,
    lemma_upper_position_bound, parent_below, path_segments, path_steps, path_text, pending_wf,
    process_start, readings_text, run_end, search, spec_conversions, stable_sorted, upper_position,
    spec_candidate_costs, spec_candidates, step_seq, surfaces_text, SearchState,
};
use crate::lattice::{node_key, spec_extend_entry, spec_extend_unknown, spec_finish, spec_root, NodeView};
use crate::scoring::is_ascii_alphanumeric;

verus! {

proof fn lemma_readings_push(s: Seq<SegmentView>, v: SegmentView)
    ensures
        readings_text(s + seq![v]) == readings_text(s) + v.reading,
{
    assert((s + seq![v]).drop_last() =~= s);
}

/// Appending nodes to the arena leaves the paths through its earlier nodes as they were.
proof fn lemma_arena_prefix(a: Seq<NodeView>, b: Seq<NodeView>, i: int)
    requires
        0 <= i < a.len(),
    ensures
        arena_segments(a + b, i) == arena_segments(a, i),
        arena_steps(a + b, i) == arena_steps(a, i),
    decreases i,
{
    assert((a + b)[i] == a[i]);
    match a[i].parent {
        Some(p) => {
            if 0 <= p < i {
                lemma_arena_prefix(a, b, p);
            }
        },
        None => {},
    }
}

proof fn lemma_path_prefix(a: Seq<NodeView>, b: Seq<NodeView>, x: NodeView)
    requires
        parent_below(x, a.len() as int),
    ensures
        path_segments(a + b, x) == path_segments(a, x),
        path_steps(a + b, x) == path_steps(a, x),
{
    match x.parent {
        Some(p) => {
            lemma_arena_prefix(a, b, p);
        },
        None => {},
    }
}

/// The segments of the path `x` read the first `p` characters of `chars`.
pub open spec fn covers(arena: Seq<NodeView>, x: NodeView, chars: Seq<char>, p: int) -> bool {
    readings_text(path_segments(arena, x)) == chars.take(p)
}

/// A path carries a cost breakdown exactly when it ends in a segment.
pub open spec fn costed(x: NodeView) -> bool {
    x.segment is Some <==> x.step is Some
}

/// The base cost a segment adds: its connection, word cost, surface penalty
/// and segment penalty.
pub open spec fn step_base(c: SegmentCostView) -> i32 {
    c.connection_cost.wrapping_add(c.word_cost).wrapping_add(c.surface_penalty).wrapping_add(c.segment_penalty)
}

/// The base costs of `steps` added up, as `i32` arithmetic wraps.
pub open spec fn steps_base(steps: Seq<SegmentCostView>) -> i32
    decreases steps.len(),
{
    if steps.len() == 0 {
        0
    } else {
        steps_base(steps.drop_last()).wrapping_add(step_base(steps.last()))
    }
}

/// The language costs of `steps` added up, as `i32` arithmetic wraps.
pub open spec fn steps_language(steps: Seq<SegmentCostView>) -> i32
    decreases steps.len(),
{
    if steps.len() == 0 {
        0
    } else {
        steps_language(steps.drop_last()).wrapping_add(steps.last().language_cost)
    }
}

/// The costs of the path `x` are those of its segments added up, plus what
/// closing it at the sentence end added.
pub open spec fn adds_up(arena: Seq<NodeView>, x: NodeView) -> bool {
    &&& x.base_cost == steps_base(path_steps(arena, x)).wrapping_add(x.eos_connection_cost)
    &&& x.language_cost == steps_language(path_steps(arena, x)).wrapping_add(x.eos_language_cost)
}

/// A path not yet closed whose costs add up.
pub open spec fn tallied(arena: Seq<NodeView>, x: NodeView) -> bool {
    &&& adds_up(arena, x)
    &&& x.eos_connection_cost == 0
    &&& x.eos_language_cost == 0
}

/// The costs of the expanded node `i` are those of its segments added up.
pub open spec fn arena_tallied(arena: Seq<NodeView>, i: int) -> bool {
    &&& arena[i].base_cost == steps_base(arena_steps(arena, i))
    &&& arena[i].language_cost == steps_language(arena_steps(arena, i))
}

proof fn lemma_steps_push(s: Seq<SegmentCostView>, c: SegmentCostView)
    ensures
        steps_base(s + seq![c]) == steps_base(s).wrapping_add(step_base(c)),
        steps_language(s + seq![c]) == steps_language(s).wrapping_add(c.language_cost),
{
    assert((s + seq![c]).drop_last() =~= s);
}

proof fn lemma_add_zero(v: i32)
    ensures
        v.wrapping_add(0i32) == v,
{
}

/// The path `x`, made from the expanded node `i` by one more segment, adds up
/// when its costs are node `i`'s plus that segment's.
proof fn lemma_extension_tallied(arena: Seq<NodeView>, i: int, x: NodeView, c: SegmentCostView)
    requires
        0 <= i < arena.len(),
        arena_tallied(arena, i),
        x.parent == Some(i),
        step_seq(x.segment, x.step) == seq![c],
        x.base_cost == arena[i].base_cost.wrapping_add(step_base(c)),
        x.language_cost == arena[i].language_cost.wrapping_add(c.language_cost),
        x.eos_connection_cost == 0,
        x.eos_language_cost == 0,
    ensures
        tallied(arena, x),
{
    assert(path_steps(arena, x) == arena_steps(arena, i) + seq![c]);
    lemma_steps_push(arena_steps(arena, i), c);
    lemma_add_zero(x.base_cost);
    lemma_add_zero(x.language_cost);
}

/// The paths waiting at each position `p` read the first `p` characters.
pub open spec fn pending_ok(chars: Seq<char>, arena: Seq<NodeView>, pending: Seq<Seq<NodeView>>) -> bool {
    &&& pending.len() == chars.len() + 1
    &&& pending_wf(pending, arena.len() as int)
    &&& forall|p: int, j: int|
        0 <= p < pending.len() && 0 <= j < pending[p].len() ==> covers(arena, #[trigger] pending[p][j], chars, p)
            && costed(pending[p][j]) && tallied(arena, pending[p][j])
}

/// The search state after expanding positions `0..k`: the arena is well formed,
/// every waiting path reads the characters before its position, the expanded
/// positions are empty, and some later position still has a path.
pub open spec fn state_ok(chars: Seq<char>, st: SearchState, k: int) -> bool {
    &&& arena_wf(st.arena)
    &&& forall|i: int| 0 <= i < st.arena.len() ==> costed(#[trigger] st.arena[i])
    &&& pending_ok(chars, st.arena, st.pending)
    &&& forall|q: int| 0 <= q < k ==> #[trigger] st.pending[q].len() == 0
    &&& exists|q: int| k <= q <= chars.len() && #[trigger] st.pending[q].len() > 0
}

proof fn lemma_upper_position_split(list: Seq<NodeView>, key: i32)
    ensures
        0 <= upper_position(list, key) <= list.len(),
        forall|i: int| 0 <= i < upper_position(list, key) ==> node_key(#[trigger] list[i]) <= key,
        upper_position(list, key) < list.len() ==> node_key(list[upper_position(list, key)]) > key,
    decreases list.len(),
{
    if list.len() > 0 && node_key(list[0]) <= key {
        let rest = list.drop_first();
        lemma_upper_position_split(rest, key);
        assert forall|i: int| 0 <= i < upper_position(list, key) implies node_key(#[trigger] list[i]) <= key by {
            if i > 0 {
                assert(list[i] == rest[i - 1]);
            }
        }
        if upper_position(list, key) < list.len() {
            assert(list[upper_position(list, key)] == rest[upper_position(rest, key)]);
        }
    }
}

proof fn lemma_insert_ok(chars: Seq<char>, st: SearchState, end: int, x: NodeView, beam: int)
    requires
        pending_ok(chars, st.arena, st.pending),
        0 <= end <= chars.len(),
        covers(st.arena, x, chars, end),
        costed(x),
        tallied(st.arena, x),
        parent_below(x, st.arena.len() as int),
        beam >= 1,
    ensures
        insert_at(st, end, x, beam).arena == st.arena,
        pending_ok(chars, st.arena, insert_at(st, end, x, beam).pending),
        insert_at(st, end, x, beam).pending[end].len() > 0,
        forall|q: int| 0 <= q < st.pending.len() && q != end ==> #[trigger] insert_at(st, end, x, beam).pending[q] == st.pending[q],
{
    let list = st.pending[end];
    let r = insert_at(st, end, x, beam);
    lemma_upper_position_bound(list, node_key(x));
    lemma_insert_members(list, x, beam);
    let cell = at_most(insert_sorted(list, x), beam);
    assert(insert_sorted(list, x).len() == list.len() + 1);
    assert(r.pending[end] == cell);
    assert forall|p: int, j: int| 0 <= p < r.pending.len() && 0 <= j < r.pending[p].len() implies covers(
        st.arena,
        #[trigger] r.pending[p][j],
        chars,
        p,
    ) && costed(r.pending[p][j]) && tallied(st.arena, r.pending[p][j]) && parent_below(r.pending[p][j], st.arena.len() as int) by {
        if p == end {
            if cell[j] != x {
                assert(list.contains(cell[j]));
                let i = choose|i: int| 0 <= i < list.len() && list[i] == cell[j];
                assert(st.pending[end][i] == cell[j]);
            }
        } else {
            assert(r.pending[p] == st.pending[p]);
        }
    }
}

/// Extending the paths stored at `base..base + k`, which read the first `start`
/// characters, by the next characters up to `end` keeps every waiting path
/// reading what comes before its position.
proof fn lemma_unknown_all_ok(
    d: Dictionary,
    chars: Seq<char>,
    st: SearchState,
    base: int,
    k: int,
    start: int,
    end: int,
    text: Seq<char>,
    word_cost: i32,
    beam: int,
)
    requires
        pending_ok(chars, st.arena, st.pending),
        0 <= base,
        0 <= k,
        base + k <= st.arena.len(),
        forall|i: int| base <= i < base + k ==> readings_text(#[trigger] arena_segments(st.arena, i)) == chars.take(start),
        forall|i: int| base <= i < base + k ==> #[trigger] arena_tallied(st.arena, i),
        0 <= start < end <= chars.len(),
        text == chars.subrange(start, end),
        beam >= 1,
    ensures
        extend_unknown_all(d, st, base, k, end, text, word_cost, beam).arena == st.arena,
        pending_ok(chars, st.arena, extend_unknown_all(d, st, base, k, end, text, word_cost, beam).pending),
        forall|q: int|
            0 <= q < st.pending.len() && q != end ==> #[trigger] extend_unknown_all(
                d,
                st,
                base,
                k,
                end,
                text,
                word_cost,
                beam,
            ).pending[q] == st.pending[q],
        k >= 1 ==> extend_unknown_all(d, st, base, k, end, text, word_cost, beam).pending[end].len() > 0,
        st.pending[end].len() > 0 ==> extend_unknown_all(d, st, base, k, end, text, word_cost, beam).pending[end].len() > 0,
    decreases k,
{
    if k > 0 {
        lemma_unknown_all_ok(d, chars, st, base, k - 1, start, end, text, word_cost, beam);
        let prev = extend_unknown_all(d, st, base, k - 1, end, text, word_cost, beam);
        let i = base + k - 1;
        let x = spec_extend_unknown(d, st.arena[i], i, text, word_cost);
        assert(path_segments(st.arena, x) == arena_segments(st.arena, i) + seq![SegmentView { reading: text, surface: text }]);
        assert(arena_tallied(st.arena, i));
        let c = step_seq(x.segment, x.step)[0];
        lemma_add_zero(c.connection_cost.wrapping_add(c.word_cost));
        lemma_extension_tallied(st.arena, i, x, c);
        lemma_readings_push(arena_segments(st.arena, i), SegmentView { reading: text, surface: text });
        assert(chars.take(start) + text =~= chars.take(end));
        lemma_insert_ok(chars, prev, end, x, beam);
    }
}

proof fn lemma_entry_all_ok(
    d: Dictionary,
    chars: Seq<char>,
    st: SearchState,
    base: int,
    k: int,
    start: int,
    end: int,
    entry: int,
    beam: int,
)
    requires
        pending_ok(chars, st.arena, st.pending),
        0 <= base,
        0 <= k,
        base + k <= st.arena.len(),
        forall|i: int| base <= i < base + k ==> readings_text(#[trigger] arena_segments(st.arena, i)) == chars.take(start),
        forall|i: int| base <= i < base + k ==> #[trigger] arena_tallied(st.arena, i),
        0 <= start < end <= chars.len(),
        d.spec_entries()[entry].reading@ == chars.subrange(start, end),
        beam >= 1,
    ensures
        extend_entry_all(d, st, base, k, end, entry, beam).arena == st.arena,
        pending_ok(chars, st.arena, extend_entry_all(d, st, base, k, end, entry, beam).pending),
        forall|q: int|
            0 <= q < st.pending.len() && q != end ==> #[trigger] extend_entry_all(d, st, base, k, end, entry, beam).pending[q]
                == st.pending[q],
        k >= 1 ==> extend_entry_all(d, st, base, k, end, entry, beam).pending[end].len() > 0,
        st.pending[end].len() > 0 ==> extend_entry_all(d, st, base, k, end, entry, beam).pending[end].len() > 0,
    decreases k,
{
    if k > 0 {
        lemma_entry_all_ok(d, chars, st, base, k - 1, start, end, entry, beam);
        let prev = extend_entry_all(d, st, base, k - 1, end, entry, beam);
        let i = base + k - 1;
        let e = d.spec_entries()[entry];
        let x = spec_extend_entry(d, st.arena[i], i, e);
        let v = SegmentView { reading: e.reading@, surface: e.surface@ };
        assert(path_segments(st.arena, x) == arena_segments(st.arena, i) + seq![v]);
        assert(arena_tallied(st.arena, i));
        let c = step_seq(x.segment, x.step)[0];
        lemma_extension_tallied(st.arena, i, x, c);
        lemma_readings_push(arena_segments(st.arena, i), v);
        assert(chars.take(start) + e.reading@ =~= chars.take(end));
        lemma_insert_ok(chars, prev, end, x, beam);
    }
}

/// Every matched entry reads the characters from `start` on.
pub open spec fn matches_read(d: Dictionary, chars: Seq<char>, start: int, matches: Seq<usize>) -> bool {
    forall|i: int|
        0 <= i < matches.len() ==> {
            let e = d.spec_entries()[#[trigger] matches[i] as int];
            &&& 1 <= e.reading@.len()
            &&& start + e.reading@.len() <= chars.len()
            &&& e.reading@ == chars.subrange(start, start + e.reading@.len())
        }
}

proof fn lemma_matches_ok(
    d: Dictionary,
    chars: Seq<char>,
    st: SearchState,
    base: int,
    m: int,
    start: int,
    matches: Seq<usize>,
    k: int,
    beam: int,
)
    requires
        pending_ok(chars, st.arena, st.pending),
        0 <= base,
        0 <= m,
        base + m <= st.arena.len(),
        forall|i: int| base <= i < base + m ==> readings_text(#[trigger] arena_segments(st.arena, i)) == chars.take(start),
        forall|i: int| base <= i < base + m ==> #[trigger] arena_tallied(st.arena, i),
        0 <= start < chars.len(),
        0 <= k <= matches.len(),
        matches_read(d, chars, start, matches),
        beam >= 1,
    ensures
        extend_matches(d, st, base, m, start, matches, k, beam).arena == st.arena,
        pending_ok(chars, st.arena, extend_matches(d, st, base, m, start, matches, k, beam).pending),
        forall|q: int| 0 <= q <= start ==> #[trigger] extend_matches(d, st, base, m, start, matches, k, beam).pending[q] == st.pending[q],
        forall|q: int|
            0 <= q < st.pending.len() && st.pending[q].len() > 0 ==> #[trigger] extend_matches(
                d,
                st,
                base,
                m,
                start,
                matches,
                k,
                beam,
            ).pending[q].len() > 0,
        k >= 1 && m >= 1 ==> exists|q: int|
            start < q <= chars.len() && #[trigger] extend_matches(d, st, base, m, start, matches, k, beam).pending[q].len() > 0,
    decreases k,
{
    if k > 0 {
        lemma_matches_ok(d, chars, st, base, m, start, matches, k - 1, beam);
        let prev = extend_matches(d, st, base, m, start, matches, k - 1, beam);
        let entry = matches[k - 1] as int;
        let e = d.spec_entries()[entry];
        let end = start + e.reading@.len();
        assert(1 <= e.reading@.len());
        assert forall|i: int| base <= i < base + m implies readings_text(#[trigger] arena_segments(prev.arena, i))
            == chars.take(start) by {
            assert(prev.arena == st.arena);
        }
        assert forall|i: int| base <= i < base + m implies #[trigger] arena_tallied(prev.arena, i) by {
            assert(prev.arena == st.arena);
            assert(arena_tallied(st.arena, i));
        }
        lemma_entry_all_ok(d, chars, prev, base, m, start, end, entry, beam);
        let r = extend_matches(d, st, base, m, start, matches, k, beam);
        assert(r == extend_entry_all(d, prev, base, m, end, entry, beam));
        assert forall|q: int| 0 <= q < st.pending.len() && st.pending[q].len() > 0 implies #[trigger] r.pending[q].len() > 0 by {
            assert(prev.pending[q].len() > 0);
            if q != end {
                assert(r.pending[q] == prev.pending[q]);
            }
        }
        assert forall|q: int| 0 <= q <= start implies #[trigger] r.pending[q] == st.pending[q] by {
            assert(r.pending[q] == prev.pending[q]);
        }
        if m >= 1 {
            assert(r.pending[end].len() > 0);
        }
    }
}

proof fn lemma_run_end(chars: Seq<char>, i: int)
    requires
        0 <= i <= chars.len(),
    ensures
        i <= run_end(chars, i) <= chars.len(),
        i < chars.len() && is_ascii_alphanumeric(chars[i]) ==> i < run_end(chars, i),
    decreases chars.len() - i,
{
    if i < chars.len() && is_ascii_alphanumeric(chars[i]) {
        lemma_run_end(chars, i + 1);
    }
}

/// Expanding position `start` keeps the search state sound and moves the
/// frontier one position on.
proof fn lemma_process_ok(d: Dictionary, chars: Seq<char>, beam: int, st: SearchState, start: int)
    requires
        state_ok(chars, st, start),
        0 <= start < chars.len(),
        beam >= 1,
        d.spec_entries().len() <= usize::MAX,
    ensures
        state_ok(chars, process_start(d, chars, beam, st, start), start + 1),
{
    let n = chars.len() as int;
    let here = st.pending[start];
    let r = process_start(d, chars, beam, st, start);
    if here.len() == 0 {
        assert(r == st);
        let q = choose|q: int| start <= q <= n && #[trigger] st.pending[q].len() > 0;
        assert(q != start);
        assert(st.pending[q].len() > 0);
    } else {
        let base = st.arena.len() as int;
        let m = here.len() as int;
        let s0 = SearchState { arena: st.arena + here, pending: st.pending.update(start, Seq::empty()) };
        // The moved paths read the first `start` characters from the arena.
        assert forall|i: int| base <= i < base + m implies readings_text(#[trigger] arena_segments(s0.arena, i))
            == chars.take(start) by {
            let x = here[i - base];
            assert(s0.arena[i] == x);
            assert(parent_below(st.pending[start][i - base], base));
            assert(covers(st.arena, st.pending[start][i - base], chars, start));
            match x.parent {
                Some(p) => {
                    lemma_arena_prefix(st.arena, here, p);
                },
                None => {},
            }
            assert(arena_segments(s0.arena, i) == path_segments(st.arena, x));
        }
        // Their costs add up from the arena, as they did while they waited.
        assert forall|i: int| base <= i < base + m implies #[trigger] arena_tallied(s0.arena, i) by {
            let x = here[i - base];
            assert(s0.arena[i] == x);
            assert(parent_below(st.pending[start][i - base], base));
            assert(tallied(st.arena, st.pending[start][i - base]));
            match x.parent {
                Some(p) => {
                    lemma_arena_prefix(st.arena, here, p);
                },
                None => {},
            }
            assert(arena_steps(s0.arena, i) == path_steps(st.arena, x));
            lemma_add_zero(x.base_cost);
            lemma_add_zero(x.language_cost);
        }
        assert(arena_wf(s0.arena)) by {
            assert forall|i: int| 0 <= i < s0.arena.len() implies parent_below(#[trigger] s0.arena[i], i) by {
                if i >= base {
                    assert(s0.arena[i] == st.pending[start][i - base]);
                    assert(parent_below(st.pending[start][i - base], base));
                } else {
                    assert(s0.arena[i] == st.arena[i]);
                }
            }
        }
        assert forall|i: int| 0 <= i < s0.arena.len() implies costed(#[trigger] s0.arena[i]) by {
            if i >= base {
                assert(s0.arena[i] == st.pending[start][i - base]);
            } else {
                assert(s0.arena[i] == st.arena[i]);
            }
        }
        assert(pending_ok(chars, s0.arena, s0.pending)) by {
            assert forall|p: int, j: int| 0 <= p < s0.pending.len() && 0 <= j < s0.pending[p].len() implies covers(
                s0.arena,
                #[trigger] s0.pending[p][j],
                chars,
                p,
            ) && costed(s0.pending[p][j]) && tallied(s0.arena, s0.pending[p][j]) && parent_below(s0.pending[p][j], s0.arena.len() as int) by {
                assert(p != start);
                assert(s0.pending[p] == st.pending[p]);
                assert(parent_below(st.pending[p][j], base));
                lemma_path_prefix(st.arena, here, st.pending[p][j]);
            }
        }
        let ascii = start < n && is_ascii_alphanumeric(chars[start]);
        let s1 = if ascii {
            let end = run_end(chars, start);
            extend_unknown_all(d, s0, base, m, end, chars.subrange(start, end), crate::lattice::ASCII_WORD_COST, beam)
        } else {
            s0
        };
        if ascii {
            let end = run_end(chars, start);
            lemma_run_end(chars, start);
            lemma_unknown_all_ok(d, chars, s0, base, m, start, end, chars.subrange(start, end), crate::lattice::ASCII_WORD_COST, beam);
        }
        assert(s1.arena == s0.arena);
        assert(pending_ok(chars, s0.arena, s1.pending));
        assert forall|q: int| 0 <= q <= start implies #[trigger] s1.pending[q] == s0.pending[q] by {
            if ascii {
                lemma_run_end(chars, start);
            }
        }
        let input = chars.skip(start);
        let matches = spec_lookup_prefix(d.spec_entries(), input);
        let sm = d.spec_entries();
        lemma_lookup_members(sm, input, lookup_depth(input));
        assert(matches_read(d, chars, start, matches)) by {
            assert forall|i: int| 0 <= i < matches.len() implies {
                let e = d.spec_entries()[#[trigger] matches[i] as int];
                &&& 1 <= e.reading@.len()
                &&& start + e.reading@.len() <= chars.len()
                &&& e.reading@ == chars.subrange(start, start + e.reading@.len())
            } by {
                let e = sm[matches[i] as int];
                assert(e.reading@ == input.take(e.reading@.len() as int));
                assert(input.take(e.reading@.len() as int) =~= chars.subrange(start, start + e.reading@.len()));
            }
        }
        let mut witness: int = 0;
        if matches.len() == 0 {
            lemma_unknown_all_ok(d, chars, s1, base, m, start, start + 1, chars.subrange(start, start + 1), crate::lattice::UNKNOWN_WORD_COST, beam);
            assert(r.pending[start + 1].len() > 0);
            witness = start + 1;
            assert forall|q: int| 0 <= q <= start implies #[trigger] r.pending[q] == s0.pending[q] by {
                assert(r.pending[q] == s1.pending[q]);
            }
        } else {
            lemma_matches_ok(d, chars, s1, base, m, start, matches, matches.len() as int, beam);
            witness = choose|q: int| start < q <= n && #[trigger] r.pending[q].len() > 0;
        }
        assert(start < witness <= n && r.pending[witness].len() > 0);
        assert forall|q: int| 0 <= q < start + 1 implies #[trigger] r.pending[q].len() == 0 by {
            assert(r.pending[q] == s0.pending[q]);
            if q < start {
                assert(s0.pending[q] == st.pending[q]);
            }
        }
    }
}

/// After expanding positions `0..k` the search state is sound.
proof fn lemma_search_ok(d: Dictionary, chars: Seq<char>, beam: int, k: int)
    requires
        0 <= k <= chars.len(),
        beam >= 1,
        d.spec_entries().len() <= usize::MAX,
    ensures
        state_ok(chars, search(d, chars, beam, k), k),
    decreases k,
{
    if k == 0 {
        let st = initial_state(d, chars);
        assert(search(d, chars, beam, 0) == st);
        assert(st.pending[0] == seq![spec_root(d)]);
        assert(path_segments(st.arena, spec_root(d)) =~= Seq::<SegmentView>::empty());
        assert(chars.take(0) =~= Seq::<char>::empty());
        assert(pending_ok(chars, st.arena, st.pending)) by {
            assert forall|p: int, j: int| 0 <= p < st.pending.len() && 0 <= j < st.pending[p].len() implies covers(
                st.arena,
                #[trigger] st.pending[p][j],
                chars,
                p,
            ) && costed(st.pending[p][j]) && parent_below(st.pending[p][j], st.arena.len() as int) by {
                assert(p == 0);
                assert(st.pending[p][j] == spec_root(d));
            }
        }
        assert(st.pending[0].len() > 0);
    } else {
        lemma_search_ok(d, chars, beam, k - 1);
        lemma_process_ok(d, chars, beam, search(d, chars, beam, k - 1), k - 1);
    }
}

/// `nodes` in order of cost.
pub open spec fn sorted_by_cost(nodes: Seq<NodeView>) -> bool {
    forall|i: int, j: int| 0 <= i <= j < nodes.len() ==> node_key(#[trigger] nodes[i]) <= node_key(#[trigger] nodes[j])
}

proof fn lemma_stable_sorted(nodes: Seq<NodeView>, k: int)
    requires
        0 <= k <= nodes.len(),
    ensures
        stable_sorted(nodes, k).len() == k,
        sorted_by_cost(stable_sorted(nodes, k)),
        forall|i: int| 0 <= i < k ==> exists|j: int| 0 <= j < k && #[trigger] stable_sorted(nodes, k)[i] == nodes[j],
    decreases k,
{
    if k > 0 {
        lemma_stable_sorted(nodes, k - 1);
        let list = stable_sorted(nodes, k - 1);
        let x = nodes[k - 1];
        let key = node_key(x);
        lemma_upper_position_split(list, key);
        let u = upper_position(list, key);
        let ins = insert_sorted(list, x);
        assert(ins == stable_sorted(nodes, k));
        assert forall|i: int| 0 <= i < ins.len() implies (i < u ==> #[trigger] ins[i] == list[i]) && (i == u ==> ins[i] == x) && (i > u
            ==> ins[i] == list[i - 1]) by {}
        assert forall|i: int, j: int| 0 <= i <= j < ins.len() implies node_key(#[trigger] ins[i]) <= node_key(#[trigger] ins[j]) by {
            if i < u && j < u {
            } else if i < u && j == u {
            } else if i < u {
                assert(node_key(list[i]) <= node_key(list[j - 1]));
            } else if i == u && j > u {
                assert(node_key(list[u]) > key);
                assert(node_key(list[u]) <= node_key(list[j - 1]));
            } else if i > u {
            }
        }
        assert forall|i: int| 0 <= i < k implies exists|j: int| 0 <= j < k && #[trigger] ins[i] == nodes[j] by {
            if i < u {
                let j = choose|j: int| 0 <= j < k - 1 && #[trigger] list[i] == nodes[j];
                assert(ins[i] == nodes[j]);
            } else if i > u {
                let j = choose|j: int| 0 <= j < k - 1 && #[trigger] list[i - 1] == nodes[j];
                assert(ins[i] == nodes[j]);
            } else {
                assert(ins[i] == nodes[k - 1]);
            }
        }
    }
}

/// The texts of `nodes` are pairwise different.
pub open spec fn distinct_text(arena: Seq<NodeView>, nodes: Seq<NodeView>) -> bool {
    forall|i: int, j: int|
        0 <= i < j < nodes.len() ==> path_text(arena, #[trigger] nodes[i]) != path_text(arena, #[trigger] nodes[j])
}

proof fn lemma_distinct_texts(arena: Seq<NodeView>, nodes: Seq<NodeView>, k: int)
    requires
        0 <= k <= nodes.len(),
        sorted_by_cost(nodes),
    ensures
        distinct_texts(arena, nodes, k).len() <= k,
        k >= 1 ==> distinct_texts(arena, nodes, k).len() >= 1,
        sorted_by_cost(distinct_texts(arena, nodes, k)),
        distinct_text(arena, distinct_texts(arena, nodes, k)),
        forall|i: int|
            0 <= i < distinct_texts(arena, nodes, k).len() ==> exists|j: int| 0 <= j < k && #[trigger] distinct_texts(arena, nodes, k)[i] == nodes[j],
    decreases k,
{
    if k > 0 {
        lemma_distinct_texts(arena, nodes, k - 1);
        let kept = distinct_texts(arena, nodes, k - 1);
        let x = nodes[k - 1];
        if !(exists|j: int| 0 <= j < kept.len() && path_text(arena, #[trigger] kept[j]) == path_text(arena, x)) {
            let out = kept.push(x);
            assert(out == distinct_texts(arena, nodes, k));
            assert forall|i: int, j: int| 0 <= i <= j < out.len() implies node_key(#[trigger] out[i]) <= node_key(#[trigger] out[j]) by {
                if j == out.len() - 1 && i < j {
                    let t = choose|t: int| 0 <= t < k - 1 && #[trigger] kept[i] == nodes[t];
                    assert(out[i] == nodes[t]);
                } else if j < out.len() - 1 {
                    assert(out[i] == kept[i]);
                    assert(out[j] == kept[j]);
                }
            }
            assert forall|i: int, j: int| 0 <= i < j < out.len() implies path_text(arena, #[trigger] out[i]) != path_text(arena, #[trigger] out[j]) by {
                if j == out.len() - 1 {
                    assert(out[i] == kept[i]);
                } else {
                    assert(out[i] == kept[i]);
                    assert(out[j] == kept[j]);
                }
            }
            assert forall|i: int| 0 <= i < out.len() implies exists|j: int| 0 <= j < k && #[trigger] out[i] == nodes[j] by {
                if i < kept.len() {
                    let t = choose|t: int| 0 <= t < k - 1 && #[trigger] kept[i] == nodes[t];
                    assert(out[i] == nodes[t]);
                } else {
                    assert(out[i] == nodes[k - 1]);
                }
            }
        } else {
            assert(kept == distinct_texts(arena, nodes, k));
            assert forall|i: int| 0 <= i < kept.len() implies exists|j: int| 0 <= j < k && #[trigger] kept[i] == nodes[j] by {
                let t = choose|t: int| 0 <= t < k - 1 && #[trigger] kept[i] == nodes[t];
            }
            if k == 1 {
                assert(kept.len() == 0);
            }
        }
    }
}

/// What the search returns: at most `limit` paths, cheapest first, with pairwise
/// different texts, each reading all of `chars`; at least one when `chars` is
/// not empty and `limit` is positive.
pub proof fn lemma_conversions(d: Dictionary, chars: Seq<char>, limit: int, beam: int)
    requires
        limit >= 0,
        d.spec_entries().len() <= usize::MAX,
    ensures
        ({
            let (arena, results) = spec_conversions(d, chars, limit, beam);
            &&& results.len() <= limit
            &&& sorted_by_cost(results)
            &&& distinct_text(arena, results)
            &&& forall|i: int| 0 <= i < results.len() ==> readings_text(path_segments(arena, #[trigger] results[i])) == chars
            &&& forall|i: int| 0 <= i < arena.len() ==> costed(#[trigger] arena[i])
            &&& forall|i: int| 0 <= i < results.len() ==> costed(#[trigger] results[i]) && parent_below(results[i], arena.len() as int)
            &&& forall|i: int| 0 <= i < results.len() ==> adds_up(arena, #[trigger] results[i])
            &&& arena_wf(arena)
            &&& chars.len() > 0 && limit > 0 ==> results.len() >= 1
        }),
{
    if chars.len() > 0 && limit > 0 {
        let n = chars.len() as int;
        let b = effective_beam(limit, beam);
        lemma_search_ok(d, chars, b, n);
        let st = search(d, chars, b, n);
        let q = choose|q: int| n <= q <= n && #[trigger] st.pending[q].len() > 0;
        assert(q == n);
        let last = st.pending[n];
        let finished = last.map_values(|x: NodeView| spec_finish(d, x));
        assert forall|i: int| 0 <= i < finished.len() implies #[trigger] path_segments(st.arena, finished[i]) == path_segments(
            st.arena,
            last[i],
        ) && costed(finished[i]) && parent_below(finished[i], st.arena.len() as int) && readings_text(
            path_segments(st.arena, finished[i]),
        ) == chars && adds_up(st.arena, finished[i]) by {
            assert(covers(st.arena, st.pending[n][i], chars, n));
            assert(costed(st.pending[n][i]));
            assert(tallied(st.arena, st.pending[n][i]));
            assert(path_steps(st.arena, finished[i]) == path_steps(st.arena, last[i]));
            lemma_add_zero(steps_base(path_steps(st.arena, last[i])));
            lemma_add_zero(steps_language(path_steps(st.arena, last[i])));
            assert(parent_below(st.pending[n][i], st.arena.len() as int));
            assert(chars.take(n) =~= chars);
        }
        lemma_stable_sorted(finished, finished.len() as int);
        let sorted = stable_sorted(finished, finished.len() as int);
        lemma_distinct_texts(st.arena, sorted, sorted.len() as int);
        let unique = distinct_texts(st.arena, sorted, sorted.len() as int);
        let results = at_most(unique, limit);
        assert forall|i: int| 0 <= i < results.len() implies readings_text(path_segments(st.arena, #[trigger] results[i])) == chars
            && costed(results[i]) && parent_below(results[i], st.arena.len() as int) && adds_up(st.arena, results[i]) by {
            assert(results[i] == unique[i]);
            let t = choose|t: int| 0 <= t < sorted.len() && #[trigger] unique[i] == sorted[t];
            let f = choose|f: int| 0 <= f < finished.len() && #[trigger] sorted[t] == finished[f];
        }
        assert forall|i: int, j: int| 0 <= i <= j < results.len() implies node_key(#[trigger] results[i]) <= node_key(#[trigger] results[j]) by {
            assert(results[i] == unique[i]);
            assert(results[j] == unique[j]);
        }
        assert forall|i: int, j: int| 0 <= i < j < results.len() implies path_text(st.arena, #[trigger] results[i]) != path_text(
            st.arena,
            #[trigger] results[j],
        ) by {
            assert(results[i] == unique[i]);
            assert(results[j] == unique[j]);
        }
    } else {
        let (arena, results) = spec_conversions(d, chars, limit, beam);
        assert(arena.len() == 0);
        assert(results.len() == 0);
    }
}

/// The reading and surface of a segment with its cost breakdown.
pub open spec fn segment_of(c: SegmentCostView) -> SegmentView {
    SegmentView { reading: c.reading, surface: c.surface }
}

proof fn lemma_arena_steps(arena: Seq<NodeView>, i: int)
    requires
        forall|j: int| 0 <= j < arena.len() ==> costed(#[trigger] arena[j]),
    ensures
        arena_steps(arena, i).map_values(|c: SegmentCostView| segment_of(c)) == arena_segments(arena, i),
    decreases i,
{
    if 0 <= i < arena.len() {
        let x = arena[i];
        assert(costed(x));
        let prefix_steps = match x.parent {
            Some(p) => if 0 <= p < i {
                arena_steps(arena, p)
            } else {
                Seq::empty()
            },
            None => Seq::empty(),
        };
        let prefix = match x.parent {
            Some(p) => if 0 <= p < i {
                arena_segments(arena, p)
            } else {
                Seq::empty()
            },
            None => Seq::empty(),
        };
        match x.parent {
            Some(p) => {
                if 0 <= p < i {
                    lemma_arena_steps(arena, p);
                }
            },
            None => {},
        }
        assert(prefix_steps.map_values(|c: SegmentCostView| segment_of(c)) =~= prefix);
        assert(step_seq(x.segment, x.step).map_values(|c: SegmentCostView| segment_of(c)) =~= crate::engine::segment_seq(x.segment));
        assert((prefix_steps + step_seq(x.segment, x.step)).map_values(|c: SegmentCostView| segment_of(c)) =~= prefix
            + crate::engine::segment_seq(x.segment));
    } else {
        assert(arena_steps(arena, i).map_values(|c: SegmentCostView| segment_of(c)) =~= arena_segments(arena, i));
    }
}

/// The candidates of a reading, at most `limit` of them: cheapest first, with
/// pairwise different texts, each reading all of `chars` segment by segment with
/// its text made of the segments' surfaces; at least one when `chars` is not
/// empty and `limit` is positive.
pub open spec fn well_formed_candidates(cs: Seq<CandidateView>, chars: Seq<char>, limit: int) -> bool {
    &&& cs.len() <= limit
    &&& forall|i: int, j: int| 0 <= i <= j < cs.len() ==> (#[trigger] cs[i]).cost <= (#[trigger] cs[j]).cost
    &&& forall|i: int, j: int| 0 <= i < j < cs.len() ==> (#[trigger] cs[i]).text != (#[trigger] cs[j]).text
    &&& forall|i: int|
        0 <= i < cs.len() ==> readings_text((#[trigger] cs[i]).segments) == chars && cs[i].text == surfaces_text(
            cs[i].segments,
        )
    &&& chars.len() > 0 && limit > 0 ==> cs.len() >= 1
}

/// The candidates of every reading are well formed.
pub proof fn lemma_candidates(d: Dictionary, chars: Seq<char>, limit: int, beam: int)
    requires
        limit >= 0,
        d.spec_entries().len() <= usize::MAX,
    ensures
        well_formed_candidates(spec_candidates(d, chars, limit, beam), chars, limit),
{
    lemma_conversions(d, chars, limit, beam);
    let (arena, results) = spec_conversions(d, chars, limit, beam);
    let cs = spec_candidates(d, chars, limit, beam);
    assert forall|i: int, j: int| 0 <= i <= j < cs.len() implies (#[trigger] cs[i]).cost <= (#[trigger] cs[j]).cost by {
        assert(node_key(results[i]) <= node_key(results[j]));
    }
    assert forall|i: int, j: int| 0 <= i < j < cs.len() implies (#[trigger] cs[i]).text != (#[trigger] cs[j]).text by {
        assert(path_text(arena, results[i]) != path_text(arena, results[j]));
    }
    assert forall|i: int| 0 <= i < cs.len() implies readings_text((#[trigger] cs[i]).segments) == chars by {
        assert(readings_text(path_segments(arena, results[i])) == chars);
    }
}

/// Listing the candidates with their cost breakdowns gives the same conversions
/// as listing them without: the same texts and costs in the same order, over
/// the same segments.
pub proof fn lemma_costs_agree(d: Dictionary, chars: Seq<char>, limit: int, beam: int)
    requires
        limit >= 0,
        d.spec_entries().len() <= usize::MAX,
    ensures
        spec_candidate_costs(d, chars, limit, beam).len() == spec_candidates(d, chars, limit, beam).len(),
        forall|i: int|
            0 <= i < spec_candidates(d, chars, limit, beam).len() ==> {
                let c = #[trigger] spec_candidates(d, chars, limit, beam)[i];
                let cc = spec_candidate_costs(d, chars, limit, beam)[i];
                &&& cc.text == c.text
                &&& cc.cost == c.cost
                &&& cc.segments.map_values(|s: SegmentCostView| segment_of(s)) == c.segments
            },
{
    lemma_conversions(d, chars, limit, beam);
    let (arena, results) = spec_conversions(d, chars, limit, beam);
    let cs = spec_candidates(d, chars, limit, beam);
    let ccs = spec_candidate_costs(d, chars, limit, beam);
    assert forall|i: int| 0 <= i < cs.len() implies {
        let c = #[trigger] cs[i];
        let cc = ccs[i];
        &&& cc.text == c.text
        &&& cc.cost == c.cost
        &&& cc.segments.map_values(|s: SegmentCostView| segment_of(s)) == c.segments
    } by {
        let x = results[i];
        assert(costed(x));
        let prefix_steps = match x.parent {
            Some(p) => arena_steps(arena, p),
            None => Seq::empty(),
        };
        let prefix = match x.parent {
            Some(p) => arena_segments(arena, p),
            None => Seq::empty(),
        };
        match x.parent {
            Some(p) => {
                lemma_arena_steps(arena, p);
            },
            None => {},
        }
        assert(prefix_steps.map_values(|c: SegmentCostView| segment_of(c)) =~= prefix);
        assert(step_seq(x.segment, x.step).map_values(|c: SegmentCostView| segment_of(c)) =~= crate::engine::segment_seq(x.segment));
        assert(path_steps(arena, x).map_values(|c: SegmentCostView| segment_of(c)) =~= path_segments(arena, x));
    }
}

/// A candidate's cost is its base cost plus its language cost: each entry of
/// the cost breakdown has `cost == base_cost + language_cost` (as `i32`
/// arithmetic wraps), the matching candidate has that cost, and candidates
/// come cheapest first by that sum.
pub proof fn lemma_cost_is_base_plus_language(d: Dictionary, chars: Seq<char>, limit: int, beam: int)
    requires
        limit >= 0,
        d.spec_entries().len() <= usize::MAX,
    ensures
        forall|i: int|
            0 <= i < spec_candidate_costs(d, chars, limit, beam).len() ==> {
                let cc = #[trigger] spec_candidate_costs(d, chars, limit, beam)[i];
                &&& cc.cost == cc.base_cost.wrapping_add(cc.language_cost)
                &&& spec_candidates(d, chars, limit, beam)[i].cost == cc.base_cost.wrapping_add(cc.language_cost)
            },
        forall|i: int, j: int|
            0 <= i <= j < spec_candidate_costs(d, chars, limit, beam).len() ==> (#[trigger] spec_candidate_costs(
                d,
                chars,
                limit,
                beam,
            )[i]).base_cost.wrapping_add(spec_candidate_costs(d, chars, limit, beam)[i].language_cost)
                <= (#[trigger] spec_candidate_costs(d, chars, limit, beam)[j]).base_cost.wrapping_add(
                spec_candidate_costs(d, chars, limit, beam)[j].language_cost,
            ),
{
    lemma_costs_agree(d, chars, limit, beam);
    lemma_candidates(d, chars, limit, beam);
    let cs = spec_candidates(d, chars, limit, beam);
    let ccs = spec_candidate_costs(d, chars, limit, beam);
    assert forall|i: int| 0 <= i < ccs.len() implies {
        let cc = #[trigger] ccs[i];
        &&& cc.cost == cc.base_cost.wrapping_add(cc.language_cost)
        &&& cs[i].cost == cc.base_cost.wrapping_add(cc.language_cost)
    } by {
        assert(cs[i].cost == ccs[i].cost);
    }
    assert forall|i: int, j: int| 0 <= i <= j < ccs.len() implies (#[trigger] ccs[i]).base_cost.wrapping_add(
        ccs[i].language_cost,
    ) <= (#[trigger] ccs[j]).base_cost.wrapping_add(ccs[j].language_cost) by {
        assert(cs[i].cost <= cs[j].cost);
        assert(cs[i].cost == ccs[i].cost);
        assert(cs[j].cost == ccs[j].cost);
    }
}

/// The cost breakdown of every candidate adds up: its base cost is the sum of
/// its segments' connection costs, word costs, surface penalties and segment
/// penalties plus the connection to the sentence end, and its language cost is
/// the sum of its segments' language costs plus the price of ending the
/// sentence there (as `i32` arithmetic wraps).
pub proof fn lemma_costs_add_up(d: Dictionary, chars: Seq<char>, limit: int, beam: int)
    requires
        limit >= 0,
        d.spec_entries().len() <= usize::MAX,
    ensures
        forall|i: int|
            0 <= i < spec_candidate_costs(d, chars, limit, beam).len() ==> {
                let cc = #[trigger] spec_candidate_costs(d, chars, limit, beam)[i];
                &&& cc.base_cost == steps_base(cc.segments).wrapping_add(cc.eos_connection_cost)
                &&& cc.language_cost == steps_language(cc.segments).wrapping_add(cc.eos_language_cost)
            },
{
    lemma_conversions(d, chars, limit, beam);
    let (arena, results) = spec_conversions(d, chars, limit, beam);
    let ccs = spec_candidate_costs(d, chars, limit, beam);
    assert forall|i: int| 0 <= i < ccs.len() implies {
        let cc = #[trigger] ccs[i];
        &&& cc.base_cost == steps_base(cc.segments).wrapping_add(cc.eos_connection_cost)
        &&& cc.language_cost == steps_language(cc.segments).wrapping_add(cc.eos_language_cost)
    } by {
        assert(adds_up(arena, results[i]));
    }
}

} // verus!
