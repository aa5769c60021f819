//! The conversion engine: a beam search over the lattice of dictionary words and
//! unknown words covering a reading.

use vstd::prelude::*;
use crate::candidate::{
    Candidate, CandidateCost, CandidateCostView, CandidateView, Segment, SegmentCost,
    SegmentCostView, SegmentView,
};
use crate::dictionary::{at_most, spec_lookup_prefix, Dictionary};
use crate::lattice::{
    node_key, spec_extend_entry, spec_extend_unknown, spec_finish, spec_root, NodeView, PathNode,
    StepCost, ASCII_WORD_COST, UNKNOWN_WORD_COST,
};
use crate::scoring::is_ascii_alphanumeric;

verus! {

pub const MIN_INTERNAL_BEAM: usize = 64;
pub const MAX_INTERNAL_BEAM: usize = 128;
pub const INTERNAL_BEAM_MULTIPLIER: usize = 2;

/// The number of leading paths of `list` whose key is at most `key`.
pub open spec fn upper_position(list: Seq<NodeView>, key: i32) -> int
    decreases list.len(),
{
    if list.len() == 0 {
        0
    } else if node_key(list[0]) > key {
        0
    } else {
        1 + upper_position(list.drop_first(), key)
    }
}

/// `list` with `x` placed after every leading path that costs no more than it:
/// one step of a stable sort by cost.
pub open spec fn insert_sorted(list: Seq<NodeView>, x: NodeView) -> Seq<NodeView> {
    let k = upper_position(list, node_key(x));
    list.take(k) + seq![x] + list.skip(k)
}

/// The search state: the paths that were expanded, in the order they were, and
/// the paths waiting at each character position.
pub struct SearchState {
    pub arena: Seq<NodeView>,
    pub pending: Seq<Seq<NodeView>>,
}

/// `st` with `x` sorted into the paths waiting at `end`, keeping the `beam` cheapest.
pub open spec fn insert_at(st: SearchState, end: int, x: NodeView, beam: int) -> SearchState {
    SearchState {
        arena: st.arena,
        pending: st.pending.update(end, at_most(insert_sorted(st.pending[end], x), beam)),
    }
}

/// Extends the first `k` of the paths stored at `base` by the unknown word `text`,
/// ending at `end`.
pub open spec fn extend_unknown_all(
    d: Dictionary,
    st: SearchState,
    base: int,
    k: int,
    end: int,
    text: Seq<char>,
    word_cost: i32,
    beam: int,
) -> SearchState
    decreases k,
{
    if k <= 0 {
        st
    } else {
        insert_at(
            extend_unknown_all(d, st, base, k - 1, end, text, word_cost, beam),
            end,
            spec_extend_unknown(d, st.arena[base + k - 1], base + k - 1, text, word_cost),
            beam,
        )
    }
}

/// Extends the first `k` of the paths stored at `base` by the dictionary entry at
/// `entry`, ending at `end`.
pub open spec fn extend_entry_all(
    d: Dictionary,
    st: SearchState,
    base: int,
    k: int,
    end: int,
    entry: int,
    beam: int,
) -> SearchState
    decreases k,
{
    if k <= 0 {
        st
    } else {
        insert_at(
            extend_entry_all(d, st, base, k - 1, end, entry, beam),
            end,
            spec_extend_entry(d, st.arena[base + k - 1], base + k - 1, d.spec_entries()[entry]),
            beam,
        )
    }
}

/// Extends the `m` paths stored at `base` by each of the first `k` matched entries.
pub open spec fn extend_matches(
    d: Dictionary,
    st: SearchState,
    base: int,
    m: int,
    start: int,
    matches: Seq<usize>,
    k: int,
    beam: int,
) -> SearchState
    decreases k,
{
    if k <= 0 {
        st
    } else {
        let entry = matches[k - 1] as int;
        extend_entry_all(
            d,
            extend_matches(d, st, base, m, start, matches, k - 1, beam),
            base,
            m,
            start + d.spec_entries()[entry].reading@.len(),
            entry,
            beam,
        )
    }
}

/// The end of the run of ASCII letters and digits from `i`.
pub open spec fn run_end(chars: Seq<char>, i: int) -> int
    decreases chars.len() - i,
{
    if i < 0 || i >= chars.len() || !is_ascii_alphanumeric(chars[i]) {
        i
    } else {
        run_end(chars, i + 1)
    }
}

/// Expands the paths waiting at `start`: they move to the arena, and each is
/// extended by the ASCII run starting there, if any, and then by every
/// dictionary word matching a prefix of the rest, or by the next character as
/// an unknown word when no word matches.
pub open spec fn process_start(d: Dictionary, chars: Seq<char>, beam: int, st: SearchState, start: int) -> SearchState {
    let here = st.pending[start];
    if here.len() == 0 {
        st
    } else {
        let base = st.arena.len() as int;
        let m = here.len() as int;
        let s0 = SearchState { arena: st.arena + here, pending: st.pending.update(start, Seq::empty()) };
        let s1 = if start < chars.len() && is_ascii_alphanumeric(chars[start]) {
            let end = run_end(chars, start);
            extend_unknown_all(d, s0, base, m, end, chars.subrange(start, end), ASCII_WORD_COST, beam)
        } else {
            s0
        };
        let matches = spec_lookup_prefix(d.spec_entries(), chars.skip(start));
        if matches.len() == 0 {
            extend_unknown_all(
                d,
                s1,
                base,
                m,
                start + 1,
                chars.subrange(start, start + 1),
                UNKNOWN_WORD_COST,
                beam,
            )
        } else {
            extend_matches(d, s1, base, m, start, matches, matches.len() as int, beam)
        }
    }
}

/// Before the search: the root path waits at position 0.
pub open spec fn initial_state(d: Dictionary, chars: Seq<char>) -> SearchState {
    SearchState {
        arena: Seq::empty(),
        pending: Seq::new(
            (chars.len() + 1) as nat,
            |i: int|
                if i == 0 {
                    seq![spec_root(d)]
                } else {
                    Seq::<NodeView>::empty()
                },
        ),
    }
}

/// The search state after expanding positions `0..k`.
pub open spec fn search(d: Dictionary, chars: Seq<char>, beam: int, k: int) -> SearchState
    decreases k,
{
    if k <= 0 {
        initial_state(d, chars)
    } else {
        process_start(d, chars, beam, search(d, chars, beam, k - 1), k - 1)
    }
}

/// The first `k` of `nodes`, stably sorted by cost.
pub open spec fn stable_sorted(nodes: Seq<NodeView>, k: int) -> Seq<NodeView>
    decreases k,
{
    if k <= 0 {
        Seq::empty()
    } else {
        insert_sorted(stable_sorted(nodes, k - 1), nodes[k - 1])
    }
}

pub open spec fn segment_seq(s: Option<SegmentView>) -> Seq<SegmentView> {
    match s {
        Some(v) => seq![v],
        None => Seq::empty(),
    }
}

/// The segments of the path ending at arena node `i`, first to last.
pub open spec fn arena_segments(arena: Seq<NodeView>, i: int) -> Seq<SegmentView>
    decreases i,
{
    if i < 0 || i >= arena.len() {
        Seq::empty()
    } else {
        let prefix = match arena[i].parent {
            Some(p) => if 0 <= p < i {
                arena_segments(arena, p)
            } else {
                Seq::empty()
            },
            None => Seq::empty(),
        };
        prefix + segment_seq(arena[i].segment)
    }
}

/// The segments of the path `x`, whose parent lies in `arena`.
pub open spec fn path_segments(arena: Seq<NodeView>, x: NodeView) -> Seq<SegmentView> {
    let prefix = match x.parent {
        Some(p) => arena_segments(arena, p),
        None => Seq::empty(),
    };
    prefix + segment_seq(x.segment)
}

pub open spec fn step_seq(s: Option<SegmentView>, c: Option<StepCost>) -> Seq<SegmentCostView> {
    match (s, c) {
        (Some(v), Some(c)) => seq![
            SegmentCostView {
                reading: v.reading,
                surface: v.surface,
                word_cost: c.word_cost,
                connection_cost: c.connection_cost,
                surface_penalty: c.surface_penalty,
                segment_penalty: c.segment_penalty,
                language_cost: c.language_cost,
                language_order: c.language_order,
                backoff_penalty: c.backoff_penalty,
                unknown_language_model: c.unknown_language_model,
                base_cost: c.base_cost,
                total_cost: c.total_cost,
            },
        ],
        _ => Seq::empty(),
    }
}

/// The cost breakdown of the segments of the path ending at arena node `i`.
pub open spec fn arena_steps(arena: Seq<NodeView>, i: int) -> Seq<SegmentCostView>
    decreases i,
{
    if i < 0 || i >= arena.len() {
        Seq::empty()
    } else {
        let prefix = match arena[i].parent {
            Some(p) => if 0 <= p < i {
                arena_steps(arena, p)
            } else {
                Seq::empty()
            },
            None => Seq::empty(),
        };
        prefix + step_seq(arena[i].segment, arena[i].step)
    }
}

/// The cost breakdown of the segments of the path `x`.
pub open spec fn path_steps(arena: Seq<NodeView>, x: NodeView) -> Seq<SegmentCostView> {
    let prefix = match x.parent {
        Some(p) => arena_steps(arena, p),
        None => Seq::empty(),
    };
    prefix + step_seq(x.segment, x.step)
}

/// The concatenated surfaces of `segments`.
pub open spec fn surfaces_text(segments: Seq<SegmentView>) -> Seq<char>
    decreases segments.len(),
{
    if segments.len() == 0 {
        Seq::empty()
    } else {
        surfaces_text(segments.drop_last()) + segments.last().surface
    }
}

/// The concatenated readings of `segments`.
pub open spec fn readings_text(segments: Seq<SegmentView>) -> Seq<char>
    decreases segments.len(),
{
    if segments.len() == 0 {
        Seq::empty()
    } else {
        readings_text(segments.drop_last()) + segments.last().reading
    }
}

/// The converted text of the path `x`.
pub open spec fn path_text(arena: Seq<NodeView>, x: NodeView) -> Seq<char> {
    surfaces_text(path_segments(arena, x))
}

/// The first `k` of `nodes`, dropping every path whose text an earlier one has.
pub open spec fn distinct_texts(arena: Seq<NodeView>, nodes: Seq<NodeView>, k: int) -> Seq<NodeView>
    decreases k,
{
    if k <= 0 {
        Seq::empty()
    } else {
        let kept = distinct_texts(arena, nodes, k - 1);
        if exists|j: int| 0 <= j < kept.len() && path_text(arena, #[trigger] kept[j]) == path_text(arena, nodes[k - 1]) {
            kept
        } else {
            kept.push(nodes[k - 1])
        }
    }
}

/// The beam actually used: at least the number of results asked for, and at least 1.
pub open spec fn effective_beam(limit: int, beam: int) -> int {
    let b = if beam < limit { limit } else { beam };
    if b < 1 { 1 } else { b }
}

/// The conversions of `chars`: the expanded paths, and the finished paths that
/// are returned, cheapest first, one per text, at most `limit` of them.
pub open spec fn spec_conversions(d: Dictionary, chars: Seq<char>, limit: int, beam: int) -> (
    Seq<NodeView>,
    Seq<NodeView>,
) {
    if chars.len() == 0 || limit == 0 {
        (Seq::empty(), Seq::empty())
    } else {
        let st = search(d, chars, effective_beam(limit, beam), chars.len() as int);
        let finished = st.pending[chars.len() as int].map_values(|x: NodeView| spec_finish(d, x));
        let sorted = stable_sorted(finished, finished.len() as int);
        let unique = distinct_texts(st.arena, sorted, sorted.len() as int);
        (st.arena, at_most(unique, limit))
    }
}

/// The candidate for the finished path `x`.
pub open spec fn candidate_of(arena: Seq<NodeView>, x: NodeView) -> CandidateView {
    CandidateView { text: path_text(arena, x), cost: node_key(x), segments: path_segments(arena, x) }
}

/// The candidate with its cost breakdown for the finished path `x`.
pub open spec fn candidate_cost_of(arena: Seq<NodeView>, x: NodeView) -> CandidateCostView {
    CandidateCostView {
        text: path_text(arena, x),
        cost: node_key(x),
        base_cost: x.base_cost,
        language_cost: x.language_cost,
        eos_connection_cost: x.eos_connection_cost,
        eos_language_cost: x.eos_language_cost,
        segments: path_steps(arena, x),
    }
}

/// The candidates for `chars`, cheapest first.
pub open spec fn spec_candidates(d: Dictionary, chars: Seq<char>, limit: int, beam: int) -> Seq<CandidateView> {
    let (arena, results) = spec_conversions(d, chars, limit, beam);
    results.map_values(|x: NodeView| candidate_of(arena, x))
}

/// The candidates with their cost breakdowns for `chars`, cheapest first.
pub open spec fn spec_candidate_costs(d: Dictionary, chars: Seq<char>, limit: int, beam: int) -> Seq<CandidateCostView> {
    let (arena, results) = spec_conversions(d, chars, limit, beam);
    results.map_values(|x: NodeView| candidate_cost_of(arena, x))
}

/// The beam for `limit` results: twice the limit, kept within 64 and 128.
pub open spec fn spec_internal_beam_width(limit: int) -> int {
    let doubled = if limit * 2 > usize::MAX { usize::MAX as int } else { limit * 2 };
    if doubled < MIN_INTERNAL_BEAM {
        MIN_INTERNAL_BEAM as int
    } else if doubled > MAX_INTERNAL_BEAM {
        MAX_INTERNAL_BEAM as int
    } else {
        doubled
    }
}

pub fn internal_beam_width(limit: usize) -> (r: usize)
    ensures
        r == spec_internal_beam_width(limit as int),
{
    let doubled = match limit.checked_mul(INTERNAL_BEAM_MULTIPLIER) {
        Some(v) => v,
        None => usize::MAX,
    };
    if doubled < MIN_INTERNAL_BEAM {
        MIN_INTERNAL_BEAM
    } else if doubled > MAX_INTERNAL_BEAM {
        MAX_INTERNAL_BEAM
    } else {
        doubled
    }
}

} // verus!

verus! {

pub open spec fn nodes_view(v: Seq<PathNode>) -> Seq<NodeView> {
    v.map_values(|x: PathNode| x@)
}

pub open spec fn pending_view(v: Seq<Vec<PathNode>>) -> Seq<Seq<NodeView>> {
    v.map_values(|x: Vec<PathNode>| nodes_view(x@))
}

fn key_of(x: &PathNode) -> (r: i32)
    ensures
        r == node_key(x@),
{
    x.base_cost.wrapping_add(x.language_cost)
}

proof fn lemma_upper_position_skip(s: Seq<NodeView>, key: i32, i: int)
    requires
        0 <= i < s.len(),
        node_key(s[i]) <= key,
    ensures
        upper_position(s.skip(i), key) == 1 + upper_position(s.skip(i + 1), key),
{
    assert(s.skip(i).drop_first() =~= s.skip(i + 1));
}

fn upper_position_of(list: &Vec<PathNode>, key: i32) -> (r: usize)
    ensures
        r == upper_position(nodes_view(list@), key),
        r <= list@.len(),
{
    let ghost v = nodes_view(list@);
    let mut i: usize = 0;
    proof {
        assert(v.skip(0) =~= v);
    }
    while i < list.len() && key_of(&list[i]) <= key
        invariant
            i <= list@.len(),
            v == nodes_view(list@),
            upper_position(v, key) == i + upper_position(v.skip(i as int), key),
        decreases list@.len() - i,
    {
        proof {
            lemma_upper_position_skip(v, key, i as int);
        }
        i = i + 1;
    }
    proof {
        if i < list@.len() {
            assert(v.skip(i as int)[0] == v[i as int]);
        } else {
            assert(v.skip(i as int).len() == 0);
        }
    }
    i
}

/// Every path after an insertion was there before or is the inserted one.
pub(crate) proof fn lemma_insert_members(list: Seq<NodeView>, x: NodeView, beam: int)
    requires
        beam >= 0,
    ensures
        forall|j: int|
            0 <= j < at_most(insert_sorted(list, x), beam).len() ==> list.contains(
                #[trigger] at_most(insert_sorted(list, x), beam)[j],
            ) || at_most(insert_sorted(list, x), beam)[j] == x,
{
    let k = upper_position(list, node_key(x));
    lemma_upper_position_bound(list, node_key(x));
    let ins = insert_sorted(list, x);
    assert forall|j: int| 0 <= j < ins.len() implies list.contains(#[trigger] ins[j]) || ins[j] == x by {
        if j < k {
            assert(ins[j] == list[j]);
            assert(list.contains(list[j]));
        } else if j > k {
            assert(ins[j] == list[j - 1]);
            assert(list.contains(list[j - 1]));
        }
    }
    let out = at_most(ins, beam);
    assert forall|j: int| 0 <= j < out.len() implies list.contains(#[trigger] out[j]) || out[j] == x by {
        assert(out[j] == ins[j]);
    }
}

pub(crate) proof fn lemma_upper_position_bound(list: Seq<NodeView>, key: i32)
    ensures
        0 <= upper_position(list, key) <= list.len(),
    decreases list.len(),
{
    if list.len() > 0 {
        lemma_upper_position_bound(list.drop_first(), key);
    }
}

/// Sorts `x` into the paths waiting at `end` and keeps the `beam` cheapest.
fn insert_pending(paths: &mut Vec<Vec<PathNode>>, end: usize, x: PathNode, beam: usize)
    requires
        end < old(paths)@.len(),
    ensures
        pending_view(final(paths)@) == pending_view(old(paths)@).update(
            end as int,
            at_most(insert_sorted(pending_view(old(paths)@)[end as int], x@), beam as int),
        ),
        forall|j: int|
            0 <= j < pending_view(final(paths)@)[end as int].len() ==> pending_view(old(paths)@)[end as int].contains(
                #[trigger] pending_view(final(paths)@)[end as int][j],
            ) || pending_view(final(paths)@)[end as int][j] == x@,
{
    let ghost before = old(paths)@;
    let mut cell: Vec<PathNode> = Vec::new();
    paths.set_and_swap(end, &mut cell);
    let ghost old_cell = nodes_view(cell@);
    let k = upper_position_of(&cell, key_of(&x));
    let ghost xv = x@;
    cell.insert(k, x);
    proof {
        assert(nodes_view(cell@) =~= old_cell.take(k as int) + seq![xv] + old_cell.skip(k as int));
    }
    if cell.len() > beam {
        cell.truncate(beam);
    }
    proof {
        assert(nodes_view(cell@) =~= at_most(insert_sorted(old_cell, xv), beam as int));
        lemma_insert_members(old_cell, xv, beam as int);
    }
    paths.set_and_swap(end, &mut cell);
    proof {
        assert(pending_view(paths@) =~= pending_view(before).update(
            end as int,
            at_most(insert_sorted(pending_view(before)[end as int], xv), beam as int),
        ));
    }
}

} // verus!

verus! {

/// The path `n` points back into the first `bound` expanded nodes.
pub open spec fn parent_below(n: NodeView, bound: int) -> bool {
    match n.parent {
        Some(p) => 0 <= p < bound,
        None => true,
    }
}

/// Each expanded node points back to an earlier one.
pub open spec fn arena_wf(arena: Seq<NodeView>) -> bool {
    forall|i: int| 0 <= i < arena.len() ==> parent_below(#[trigger] arena[i], i)
}

/// Each waiting path points back into the first `bound` expanded nodes.
pub open spec fn pending_wf(pending: Seq<Seq<NodeView>>, bound: int) -> bool {
    forall|q: int, j: int|
        0 <= q < pending.len() && 0 <= j < pending[q].len() ==> parent_below(#[trigger] pending[q][j], bound)
}

proof fn lemma_pending_wf_insert(old_p: Seq<Seq<NodeView>>, new_p: Seq<Seq<NodeView>>, end: int, x: NodeView, bound: int)
    requires
        pending_wf(old_p, bound),
        parent_below(x, bound),
        0 <= end < old_p.len(),
        new_p.len() == old_p.len(),
        forall|q: int| 0 <= q < old_p.len() && q != end ==> new_p[q] == old_p[q],
        forall|j: int|
            0 <= j < new_p[end].len() ==> old_p[end].contains(#[trigger] new_p[end][j]) || new_p[end][j] == x,
    ensures
        pending_wf(new_p, bound),
{
    assert forall|q: int, j: int| 0 <= q < new_p.len() && 0 <= j < new_p[q].len() implies parent_below(
        #[trigger] new_p[q][j],
        bound,
    ) by {
        if q == end {
            if new_p[end][j] != x {
                let i = choose|i: int| 0 <= i < old_p[end].len() && old_p[end][i] == new_p[end][j];
                assert(parent_below(old_p[end][i], bound));
            }
        } else {
            assert(new_p[q] == old_p[q]);
        }
    }
}

/// Extends each of the `m` paths stored at `base` by the unknown word of `facts`.
fn extend_unknown_loop(
    d: &Dictionary,
    arena: &Vec<PathNode>,
    paths: &mut Vec<Vec<PathNode>>,
    base: usize,
    m: usize,
    end: usize,
    facts: &crate::lattice::UnknownFacts,
    word_cost: i32,
    beam: usize,
)
    requires
        base + m <= arena@.len(),
        end < old(paths)@.len(),
        facts.describe(*d, facts.text@),
        pending_wf(pending_view(old(paths)@), arena@.len() as int),
    ensures
        pending_view(final(paths)@) == extend_unknown_all(
            *d,
            SearchState { arena: nodes_view(arena@), pending: pending_view(old(paths)@) },
            base as int,
            m as int,
            end as int,
            facts.text@,
            word_cost,
            beam as int,
        ).pending,
        final(paths)@.len() == old(paths)@.len(),
        pending_wf(pending_view(final(paths)@), arena@.len() as int),
{
    let ghost st = SearchState { arena: nodes_view(arena@), pending: pending_view(old(paths)@) };
    // Reading the length tells the proof that it fits a `usize`.
    let _arena_len: usize = arena.len();
    let mut j: usize = 0;
    while j < m
        invariant
            j <= m,
            base + m <= arena@.len(),
            arena@.len() <= usize::MAX,
            end < paths@.len(),
            paths@.len() == st.pending.len(),
            st.arena == nodes_view(arena@),
            facts.describe(*d, facts.text@),
            pending_view(paths@) == extend_unknown_all(
                *d,
                st,
                base as int,
                j as int,
                end as int,
                facts.text@,
                word_cost,
                beam as int,
            ).pending,
            pending_wf(pending_view(paths@), arena@.len() as int),
        decreases m - j,
    {
        let node = crate::lattice::extend_unknown(d, &arena[base + j], base + j, facts, word_cost);
        let ghost before = pending_view(paths@);
        insert_pending(paths, end, node, beam);
        proof {
            lemma_pending_wf_insert(before, pending_view(paths@), end as int, node@, arena@.len() as int);
        }
        j = j + 1;
    }
}

/// Extends each of the `m` paths stored at `base` by the dictionary entry at `entry`.
fn extend_entry_loop(
    d: &Dictionary,
    arena: &Vec<PathNode>,
    paths: &mut Vec<Vec<PathNode>>,
    base: usize,
    m: usize,
    end: usize,
    entry: usize,
    facts: &crate::lattice::EntryFacts,
    beam: usize,
)
    requires
        base + m <= arena@.len(),
        end < old(paths)@.len(),
        entry < d.spec_entries().len(),
        facts.describe(*d, d.spec_entries()[entry as int]),
        pending_wf(pending_view(old(paths)@), arena@.len() as int),
    ensures
        pending_view(final(paths)@) == extend_entry_all(
            *d,
            SearchState { arena: nodes_view(arena@), pending: pending_view(old(paths)@) },
            base as int,
            m as int,
            end as int,
            entry as int,
            beam as int,
        ).pending,
        final(paths)@.len() == old(paths)@.len(),
        pending_wf(pending_view(final(paths)@), arena@.len() as int),
{
    let ghost st = SearchState { arena: nodes_view(arena@), pending: pending_view(old(paths)@) };
    let e = &d.entries()[entry];
    // Reading the length tells the proof that it fits a `usize`.
    let _arena_len: usize = arena.len();
    let mut j: usize = 0;
    while j < m
        invariant
            j <= m,
            base + m <= arena@.len(),
            arena@.len() <= usize::MAX,
            end < paths@.len(),
            paths@.len() == st.pending.len(),
            st.arena == nodes_view(arena@),
            entry < d.spec_entries().len(),
            *e == d.spec_entries()[entry as int],
            facts.describe(*d, *e),
            pending_view(paths@) == extend_entry_all(
                *d,
                st,
                base as int,
                j as int,
                end as int,
                entry as int,
                beam as int,
            ).pending,
            pending_wf(pending_view(paths@), arena@.len() as int),
        decreases m - j,
    {
        let node = crate::lattice::extend_entry(d, &arena[base + j], base + j, e, facts);
        let ghost before = pending_view(paths@);
        insert_pending(paths, end, node, beam);
        proof {
            lemma_pending_wf_insert(before, pending_view(paths@), end as int, node@, arena@.len() as int);
        }
        j = j + 1;
    }
}

} // verus!

verus! {

/// The end of the run of ASCII letters and digits from `start`.
fn ascii_run_end(chars: &[char], start: usize) -> (r: usize)
    requires
        start <= chars@.len(),
    ensures
        r == run_end(chars@, start as int),
        start <= r <= chars@.len(),
{
    let mut i = start;
    while i < chars.len() && crate::scoring::ascii_alphanumeric(chars[i])
        invariant
            start <= i <= chars@.len(),
            run_end(chars@, start as int) == run_end(chars@, i as int),
        decreases chars@.len() - i,
    {
        i = i + 1;
    }
    i
}

/// Every matched entry exists and ends before `len`.
pub open spec fn matches_fit(d: Dictionary, matches: Seq<usize>, start: int, len: int) -> bool {
    forall|i: int|
        0 <= i < matches.len() ==> #[trigger] matches[i] < d.spec_entries().len() && start
            + d.spec_entries()[matches[i] as int].reading@.len() < len
}

/// Extends the `m` paths stored at `base` by each matched entry in turn.
fn extend_matches_loop(
    d: &Dictionary,
    arena: &Vec<PathNode>,
    paths: &mut Vec<Vec<PathNode>>,
    base: usize,
    m: usize,
    start: usize,
    matches: &Vec<usize>,
    beam: usize,
)
    requires
        base + m <= arena@.len(),
        old(paths)@.len() >= 1,
        matches_fit(*d, matches@, start as int, old(paths)@.len() as int),
        pending_wf(pending_view(old(paths)@), arena@.len() as int),
    ensures
        pending_view(final(paths)@) == extend_matches(
            *d,
            SearchState { arena: nodes_view(arena@), pending: pending_view(old(paths)@) },
            base as int,
            m as int,
            start as int,
            matches@,
            matches@.len() as int,
            beam as int,
        ).pending,
        final(paths)@.len() == old(paths)@.len(),
        pending_wf(pending_view(final(paths)@), arena@.len() as int),
{
    let ghost st = SearchState { arena: nodes_view(arena@), pending: pending_view(old(paths)@) };
    // Reading the length tells the proof that it fits a `usize`.
    let _path_count: usize = paths.len();
    let mut k: usize = 0;
    while k < matches.len()
        invariant
            k <= matches@.len(),
            base + m <= arena@.len(),
            paths@.len() == st.pending.len(),
            st.arena == nodes_view(arena@),
            matches_fit(*d, matches@, start as int, paths@.len() as int),
            paths@.len() <= usize::MAX,
            pending_view(paths@) == extend_matches(*d, st, base as int, m as int, start as int, matches@, k as int, beam as int).pending,
            pending_wf(pending_view(paths@), arena@.len() as int),
        decreases matches@.len() - k,
    {
        let entry = matches[k];
        proof {
            assert(matches@[k as int] < d.spec_entries().len());
        }
        let e = &d.entries()[entry];
        let facts = crate::lattice::entry_facts(d, e);
        proof {
            assert(d.spec_entries()[matches@[k as int] as int] == *e);
        }
        let end = start + facts.reading.len();
        let ghost mid = SearchState { arena: st.arena, pending: pending_view(paths@) };
        extend_entry_loop(d, arena, paths, base, m, end, entry, &facts, beam);
        proof {
            let prev = extend_matches(*d, st, base as int, m as int, start as int, matches@, k as int, beam as int);
            lemma_extend_matches_arena(*d, st, base as int, m as int, start as int, matches@, k as int, beam as int);
            assert(extend_entry_all(*d, mid, base as int, m as int, end as int, entry as int, beam as int).pending
                == extend_entry_all(*d, prev, base as int, m as int, end as int, entry as int, beam as int).pending) by {
                lemma_extend_entry_all_depends_on(*d, mid, prev, base as int, m as int, end as int, entry as int, beam as int);
            }
        }
        k = k + 1;
    }
}

/// `extend_entry_all` reads only the pending paths of the state it extends and
/// the arena of the state it starts from.
proof fn lemma_extend_entry_all_depends_on(
    d: Dictionary,
    a: SearchState,
    b: SearchState,
    base: int,
    k: int,
    end: int,
    entry: int,
    beam: int,
)
    requires
        a.pending == b.pending,
        forall|i: int| base <= i < base + k ==> a.arena[i] == b.arena[i],
    ensures
        extend_entry_all(d, a, base, k, end, entry, beam).pending == extend_entry_all(d, b, base, k, end, entry, beam).pending,
    decreases k,
{
    if k > 0 {
        lemma_extend_entry_all_depends_on(d, a, b, base, k - 1, end, entry, beam);
    }
}

proof fn lemma_extend_unknown_all_depends_on(
    d: Dictionary,
    a: SearchState,
    b: SearchState,
    base: int,
    k: int,
    end: int,
    text: Seq<char>,
    word_cost: i32,
    beam: int,
)
    requires
        a.pending == b.pending,
        forall|i: int| base <= i < base + k ==> a.arena[i] == b.arena[i],
    ensures
        extend_unknown_all(d, a, base, k, end, text, word_cost, beam).pending == extend_unknown_all(
            d,
            b,
            base,
            k,
            end,
            text,
            word_cost,
            beam,
        ).pending,
    decreases k,
{
    if k > 0 {
        lemma_extend_unknown_all_depends_on(d, a, b, base, k - 1, end, text, word_cost, beam);
    }
}

pub(crate) proof fn lemma_extend_matches_arena(
    d: Dictionary,
    st: SearchState,
    base: int,
    m: int,
    start: int,
    matches: Seq<usize>,
    k: int,
    beam: int,
)
    ensures
        extend_matches(d, st, base, m, start, matches, k, beam).arena == st.arena,
    decreases k,
{
    if k > 0 {
        lemma_extend_matches_arena(d, st, base, m, start, matches, k - 1, beam);
        lemma_extend_entry_all_arena(
            d,
            extend_matches(d, st, base, m, start, matches, k - 1, beam),
            base,
            m,
            start + d.spec_entries()[matches[k - 1] as int].reading@.len(),
            matches[k - 1] as int,
            beam,
        );
    }
}

pub(crate) proof fn lemma_extend_entry_all_arena(d: Dictionary, st: SearchState, base: int, k: int, end: int, entry: int, beam: int)
    ensures
        extend_entry_all(d, st, base, k, end, entry, beam).arena == st.arena,
    decreases k,
{
    if k > 0 {
        lemma_extend_entry_all_arena(d, st, base, k - 1, end, entry, beam);
    }
}

pub(crate) proof fn lemma_extend_unknown_all_arena(
    d: Dictionary,
    st: SearchState,
    base: int,
    k: int,
    end: int,
    text: Seq<char>,
    word_cost: i32,
    beam: int,
)
    ensures
        extend_unknown_all(d, st, base, k, end, text, word_cost, beam).arena == st.arena,
    decreases k,
{
    if k > 0 {
        lemma_extend_unknown_all_arena(d, st, base, k - 1, end, text, word_cost, beam);
    }
}

} // verus!

verus! {

pub open spec fn state_of(arena: Seq<PathNode>, paths: Seq<Vec<PathNode>>) -> SearchState {
    SearchState { arena: nodes_view(arena), pending: pending_view(paths) }
}

/// Expands the paths waiting at `start` in place, as `process_start` says.
fn expand(
    d: &Dictionary,
    chars: &Vec<char>,
    beam: usize,
    arena: &mut Vec<PathNode>,
    paths: &mut Vec<Vec<PathNode>>,
    start: usize,
)
    requires
        start < chars@.len(),
        old(paths)@.len() == chars@.len() + 1,
        arena_wf(nodes_view(old(arena)@)),
        pending_wf(pending_view(old(paths)@), old(arena)@.len() as int),
    ensures
        state_of(final(arena)@, final(paths)@) == process_start(
            *d,
            chars@,
            beam as int,
            state_of(old(arena)@, old(paths)@),
            start as int,
        ),
        final(paths)@.len() == old(paths)@.len(),
        arena_wf(nodes_view(final(arena)@)),
        pending_wf(pending_view(final(paths)@), final(arena)@.len() as int),
{
    let ghost st = state_of(arena@, paths@);
    if paths[start].len() == 0 {
        proof {
            assert(st.pending[start as int].len() == 0);
        }
        return;
    }
    let mut here: Vec<PathNode> = Vec::new();
    paths.set_and_swap(start, &mut here);
    let base = arena.len();
    let m = here.len();
    let ghost here_view = nodes_view(here@);
    arena.append(&mut here);
    proof {
        let s0 = SearchState { arena: st.arena + st.pending[start as int], pending: st.pending.update(start as int, Seq::empty()) };
        assert(nodes_view(arena@) =~= s0.arena);
        assert(pending_view(paths@)[start as int] =~= Seq::<NodeView>::empty());
        assert(pending_view(paths@) =~= s0.pending);
        assert(arena_wf(nodes_view(arena@))) by {
            assert forall|i: int| 0 <= i < nodes_view(arena@).len() implies parent_below(#[trigger] nodes_view(arena@)[i], i) by {
                if i >= base {
                    assert(nodes_view(arena@)[i] == st.pending[start as int][i - base]);
                    assert(parent_below(st.pending[start as int][i - base], base as int));
                } else {
                    assert(nodes_view(arena@)[i] == st.arena[i]);
                }
            }
        }
        assert(pending_wf(pending_view(paths@), arena@.len() as int)) by {
            assert forall|q: int, j: int| 0 <= q < pending_view(paths@).len() && 0 <= j < pending_view(paths@)[q].len() implies parent_below(
                #[trigger] pending_view(paths@)[q][j],
                arena@.len() as int,
            ) by {
                assert(q != start);
                assert(pending_view(paths@)[q] == st.pending[q]);
                assert(parent_below(st.pending[q][j], base as int));
            }
        }
    }
    let ghost s0 = state_of(arena@, paths@);
    if crate::scoring::ascii_alphanumeric(chars[start]) {
        let end = ascii_run_end(chars.as_slice(), start);
        let facts = crate::lattice::unknown_facts(d, chars.as_slice(), start, end);
        extend_unknown_loop(d, arena, paths, base, m, end, &facts, ASCII_WORD_COST, beam);
        proof {
            lemma_extend_unknown_all_arena(*d, s0, base as int, m as int, end as int, facts.text@, ASCII_WORD_COST, beam as int);
        }
    }
    let ghost s1 = state_of(arena@, paths@);
    proof {
        assert(s1 == if start < chars@.len() && is_ascii_alphanumeric(chars@[start as int]) {
            extend_unknown_all(*d, s0, base as int, m as int, run_end(chars@, start as int), chars@.subrange(start as int, run_end(chars@, start as int)), ASCII_WORD_COST, beam as int)
        } else {
            s0
        });
    }
    let suffix = vstd::slice::slice_subrange(chars.as_slice(), start, chars.len());
    proof {
        assert(suffix@ =~= chars@.skip(start as int));
    }
    let matches = d.lookup_prefix(suffix);
    if matches.len() == 0 {
        let facts = crate::lattice::unknown_facts(d, chars.as_slice(), start, start + 1);
        extend_unknown_loop(d, arena, paths, base, m, start + 1, &facts, UNKNOWN_WORD_COST, beam);
        proof {
            lemma_extend_unknown_all_arena(*d, s1, base as int, m as int, start + 1, facts.text@, UNKNOWN_WORD_COST, beam as int);
        }
    } else {
        proof {
            assert forall|i: int| 0 <= i < matches@.len() implies #[trigger] matches@[i] < d.spec_entries().len() && start
                + d.spec_entries()[matches@[i] as int].reading@.len() < paths@.len() by {
                let e = d.spec_entries()[matches@[i] as int];
                assert(1 <= e.reading@.len() <= crate::dictionary::lookup_depth(suffix@));
            }
        }
        extend_matches_loop(d, arena, paths, base, m, start, &matches, beam);
        proof {
            lemma_extend_matches_arena(*d, s1, base as int, m as int, start as int, matches@, matches@.len() as int, beam as int);
        }
    }
}

} // verus!

verus! {

/// Computes `search` over all positions of `chars`.
fn run_search(d: &Dictionary, chars: &Vec<char>, beam: usize) -> (r: (Vec<PathNode>, Vec<Vec<PathNode>>))
    requires
        chars@.len() < usize::MAX,
    ensures
        state_of(r.0@, r.1@) == search(*d, chars@, beam as int, chars@.len() as int),
        r.1@.len() == chars@.len() + 1,
        arena_wf(nodes_view(r.0@)),
        pending_wf(pending_view(r.1@), r.0@.len() as int),
{
    let n = chars.len();
    let mut paths: Vec<Vec<PathNode>> = Vec::new();
    let mut i: usize = 0;
    while i <= n
        invariant
            i <= n + 1,
            n == chars@.len(),
            n < usize::MAX,
            paths@.len() == i,
            forall|q: int| 0 <= q < i ==> (#[trigger] paths@[q])@.len() == 0,
        decreases n + 1 - i,
    {
        paths.push(Vec::new());
        i = i + 1;
    }
    let (before_previous_word, previous_word) = d.language_model().initial_context();
    let root = PathNode {
        base_cost: 0,
        language_cost: 0,
        eos_connection_cost: 0,
        eos_language_cost: 0,
        right_id: crate::lattice::BOS_EOS_CONTEXT_ID,
        before_previous_word,
        previous_word,
        parent: None,
        segment: None,
        context: None,
        step: None,
    };
    let mut first: Vec<PathNode> = Vec::new();
    first.push(root);
    paths.set(0, first);
    let mut arena: Vec<PathNode> = Vec::new();
    proof {
        let init = initial_state(*d, chars@);
        assert(nodes_view(arena@) =~= init.arena);
        assert forall|q: int| 0 <= q < init.pending.len() implies #[trigger] pending_view(paths@)[q] =~= init.pending[q] by {
            if q == 0 {
                assert(pending_view(paths@)[0] =~= seq![spec_root(*d)]);
            } else {
                assert(pending_view(paths@)[q] =~= Seq::<NodeView>::empty());
            }
        }
        assert(pending_view(paths@) =~= init.pending);
        assert(search(*d, chars@, beam as int, 0) == init);
        assert(pending_wf(pending_view(paths@), 0)) by {
            assert forall|q: int, j: int| 0 <= q < pending_view(paths@).len() && 0 <= j < pending_view(paths@)[q].len() implies parent_below(
                #[trigger] pending_view(paths@)[q][j],
                0,
            ) by {
                assert(q == 0);
            }
        }
    }
    let mut start: usize = 0;
    while start < n
        invariant
            start <= n,
            n == chars@.len(),
            paths@.len() == n + 1,
            state_of(arena@, paths@) == search(*d, chars@, beam as int, start as int),
            arena_wf(nodes_view(arena@)),
            pending_wf(pending_view(paths@), arena@.len() as int),
        decreases n - start,
    {
        expand(d, chars, beam, &mut arena, &mut paths, start);
        start = start + 1;
    }
    (arena, paths)
}

} // verus!

verus! {

/// Every path of `nodes` points back into the first `bound` expanded nodes.
pub open spec fn all_below(nodes: Seq<NodeView>, bound: int) -> bool {
    forall|j: int| 0 <= j < nodes.len() ==> parent_below(#[trigger] nodes[j], bound)
}

/// Closes every path of `nodes` at the sentence end.
fn finish_all(d: &Dictionary, nodes: Vec<PathNode>, Ghost(bound): Ghost<int>) -> (r: Vec<PathNode>)
    requires
        all_below(nodes_view(nodes@), bound),
    ensures
        nodes_view(r@) == nodes_view(nodes@).map_values(|x: NodeView| spec_finish(*d, x)),
        all_below(nodes_view(r@), bound),
{
    let ghost orig = nodes_view(nodes@);
    let mut rest = nodes;
    let mut out: Vec<PathNode> = Vec::new();
    while rest.len() > 0
        invariant
            out@.len() + rest@.len() == orig.len(),
            nodes_view(rest@) == orig.skip(out@.len() as int),
            nodes_view(out@) == orig.take(out@.len() as int).map_values(|x: NodeView| spec_finish(*d, x)),
            all_below(orig, bound),
            all_below(nodes_view(out@), bound),
        decreases rest@.len(),
    {
        let ghost k = out@.len() as int;
        let ghost rb = rest@;
        let x = rest.remove(0);
        proof {
            assert(nodes_view(rb)[0] == orig.skip(k)[0]);
            assert(x@ == nodes_view(rb)[0]);
            assert(x@ == orig[k]);
            assert(nodes_view(rest@) =~= nodes_view(rb).drop_first());
            assert(nodes_view(rest@) =~= orig.skip(k + 1));
        }
        let y = crate::lattice::finish(d, x);
        let ghost ob = out@;
        out.push(y);
        proof {
            assert(nodes_view(out@) =~= nodes_view(ob).push(y@));
            assert(orig.take(k + 1).map_values(|x: NodeView| spec_finish(*d, x)) =~= orig.take(k).map_values(|x: NodeView| spec_finish(*d, x)).push(spec_finish(*d, orig[k])));
            assert(nodes_view(out@) =~= orig.take(k + 1).map_values(|x: NodeView| spec_finish(*d, x)));
            assert(parent_below(orig[k], bound));
        }
    }
    proof {
        assert(orig.take(orig.len() as int) =~= orig);
    }
    out
}

proof fn lemma_insert_sorted_members(list: Seq<NodeView>, x: NodeView, bound: int)
    requires
        all_below(list, bound),
        parent_below(x, bound),
    ensures
        all_below(insert_sorted(list, x), bound),
        insert_sorted(list, x).len() == list.len() + 1,
{
    lemma_upper_position_bound(list, node_key(x));
    let k = upper_position(list, node_key(x));
    let ins = insert_sorted(list, x);
    assert forall|j: int| 0 <= j < ins.len() implies parent_below(#[trigger] ins[j], bound) by {
        if j < k {
            assert(ins[j] == list[j]);
        } else if j > k {
            assert(ins[j] == list[j - 1]);
        }
    }
}

/// Sorts `nodes` by cost, keeping the order of paths of equal cost.
fn sort_stable(nodes: Vec<PathNode>, Ghost(bound): Ghost<int>) -> (r: Vec<PathNode>)
    requires
        all_below(nodes_view(nodes@), bound),
    ensures
        nodes_view(r@) == stable_sorted(nodes_view(nodes@), nodes@.len() as int),
        all_below(nodes_view(r@), bound),
{
    let ghost orig = nodes_view(nodes@);
    let ghost n = nodes@.len() as int;
    let mut rest = nodes;
    let mut out: Vec<PathNode> = Vec::new();
    let ghost mut done: int = 0;
    while rest.len() > 0
        invariant
            0 <= done <= n,
            n == orig.len(),
            rest@.len() == n - done,
            nodes_view(rest@) == orig.skip(done),
            nodes_view(out@) == stable_sorted(orig, done),
            all_below(orig, bound),
            all_below(nodes_view(out@), bound),
            out@.len() == done,
        decreases rest@.len(),
    {
        let ghost rb = rest@;
        let x = rest.remove(0);
        proof {
            assert(nodes_view(rb)[0] == orig.skip(done)[0]);
            assert(x@ == nodes_view(rb)[0]);
            assert(x@ == orig[done]);
            assert(nodes_view(rest@) =~= nodes_view(rb).drop_first());
            assert(nodes_view(rest@) =~= orig.skip(done + 1));
            assert(parent_below(orig[done], bound));
            lemma_insert_sorted_members(nodes_view(out@), x@, bound);
        }
        let k = upper_position_of(&out, key_of(&x));
        let ghost xv = x@;
        let ghost before = nodes_view(out@);
        out.insert(k, x);
        proof {
            assert(nodes_view(out@) =~= before.take(k as int) + seq![xv] + before.skip(k as int));
            done = done + 1;
        }
    }
    out
}

} // verus!

verus! {

pub open spec fn segment_views(s: Seq<Segment>) -> Seq<SegmentView> {
    s.map_values(|x: Segment| x@)
}

pub open spec fn step_views(s: Seq<SegmentCost>) -> Seq<SegmentCostView> {
    s.map_values(|x: SegmentCost| x@)
}

/// `s` back to front.
pub open spec fn reversed<A>(s: Seq<A>) -> Seq<A> {
    Seq::new(s.len(), |i: int| s[s.len() - 1 - i])
}

proof fn lemma_reversed_append<A>(s: Seq<A>, t: Seq<A>)
    requires
        t.len() <= 1,
    ensures
        reversed(s + t) == t + reversed(s),
{
    assert(reversed(s + t) =~= t + reversed(s));
}

/// The segments of the path ending at arena node `p`, if any.
pub open spec fn prefix_segments(arena: Seq<NodeView>, cur: Option<usize>) -> Seq<SegmentView> {
    match cur {
        Some(p) => arena_segments(arena, p as int),
        None => Seq::empty(),
    }
}

pub open spec fn prefix_steps(arena: Seq<NodeView>, cur: Option<usize>) -> Seq<SegmentCostView> {
    match cur {
        Some(p) => arena_steps(arena, p as int),
        None => Seq::empty(),
    }
}

fn copy_segment(s: &Segment) -> (r: Segment)
    ensures
        r@ == s@,
{
    Segment { reading: s.reading.clone(), surface: s.surface.clone() }
}

fn segment_of(x: &PathNode) -> (r: Vec<Segment>)
    ensures
        segment_views(r@) == segment_seq(x@.segment),
{
    let mut r: Vec<Segment> = Vec::new();
    match &x.segment {
        Some(s) => {
            r.push(copy_segment(s));
            proof {
                assert(segment_views(r@) =~= segment_seq(x@.segment));
            }
        },
        None => {
            proof {
                assert(segment_views(r@) =~= segment_seq(x@.segment));
            }
        },
    }
    r
}

fn step_of(x: &PathNode) -> (r: Vec<SegmentCost>)
    ensures
        step_views(r@) == step_seq(x@.segment, x@.step),
{
    let mut r: Vec<SegmentCost> = Vec::new();
    match (&x.segment, &x.step) {
        (Some(s), Some(c)) => {
            r.push(
                SegmentCost {
                    reading: s.reading.clone(),
                    surface: s.surface.clone(),
                    word_cost: c.word_cost,
                    connection_cost: c.connection_cost,
                    surface_penalty: c.surface_penalty,
                    segment_penalty: c.segment_penalty,
                    language_cost: c.language_cost,
                    language_order: c.language_order,
                    backoff_penalty: c.backoff_penalty,
                    unknown_language_model: c.unknown_language_model,
                    base_cost: c.base_cost,
                    total_cost: c.total_cost,
                },
            );
            proof {
                assert(step_views(r@) =~= step_seq(x@.segment, x@.step));
            }
        },
        _ => {
            proof {
                assert(step_views(r@) =~= step_seq(x@.segment, x@.step));
            }
        },
    }
    r
}

/// The elements of `v` back to front.
fn reverse_segments(v: Vec<Segment>) -> (r: Vec<Segment>)
    ensures
        segment_views(r@) == reversed(segment_views(v@)),
{
    let ghost orig = segment_views(v@);
    let mut rest = v;
    let mut out: Vec<Segment> = Vec::new();
    while rest.len() > 0
        invariant
            out@.len() + rest@.len() == orig.len(),
            segment_views(rest@) == orig.take(rest@.len() as int),
            forall|i: int| 0 <= i < out@.len() ==> (#[trigger] segment_views(out@)[i]) == orig[orig.len() - 1 - i],
        decreases rest@.len(),
    {
        let ghost rb = rest@;
        let x = rest.pop().unwrap();
        let ghost ob = out@;
        out.push(x);
        proof {
            assert(segment_views(rb)[rb.len() - 1] == orig[rb.len() - 1]);
            assert(x@ == orig[orig.len() - 1 - ob.len()]);
            assert(segment_views(rest@) =~= orig.take(rest@.len() as int));
            assert(segment_views(out@) =~= segment_views(ob).push(x@));
        }
    }
    proof {
        assert(segment_views(out@) =~= reversed(orig));
    }
    out
}

fn reverse_steps(v: Vec<SegmentCost>) -> (r: Vec<SegmentCost>)
    ensures
        step_views(r@) == reversed(step_views(v@)),
{
    let ghost orig = step_views(v@);
    let mut rest = v;
    let mut out: Vec<SegmentCost> = Vec::new();
    while rest.len() > 0
        invariant
            out@.len() + rest@.len() == orig.len(),
            step_views(rest@) == orig.take(rest@.len() as int),
            forall|i: int| 0 <= i < out@.len() ==> (#[trigger] step_views(out@)[i]) == orig[orig.len() - 1 - i],
        decreases rest@.len(),
    {
        let ghost rb = rest@;
        let x = rest.pop().unwrap();
        let ghost ob = out@;
        out.push(x);
        proof {
            assert(step_views(rb)[rb.len() - 1] == orig[rb.len() - 1]);
            assert(x@ == orig[orig.len() - 1 - ob.len()]);
            assert(step_views(rest@) =~= orig.take(rest@.len() as int));
            assert(step_views(out@) =~= step_views(ob).push(x@));
        }
    }
    proof {
        assert(step_views(out@) =~= reversed(orig));
    }
    out
}

/// The segments of the path `x`, first to last.
fn walk_segments(arena: &Vec<PathNode>, x: &PathNode) -> (r: Vec<Segment>)
    requires
        arena_wf(nodes_view(arena@)),
        parent_below(x@, arena@.len() as int),
    ensures
        segment_views(r@) == path_segments(nodes_view(arena@), x@),
{
    let ghost a = nodes_view(arena@);
    let mut rev = segment_of(x);
    let mut cur = x.parent;
    proof {
        assert(reversed(segment_views(rev@)) =~= segment_views(rev@));
    }
    loop
        invariant
            a == nodes_view(arena@),
            arena_wf(a),
            match cur {
                Some(p) => p < arena@.len(),
                None => true,
            },
            path_segments(a, x@) == prefix_segments(a, cur) + reversed(segment_views(rev@)),
        ensures
            cur is None,
            path_segments(a, x@) == prefix_segments(a, cur) + reversed(segment_views(rev@)),
        decreases match cur {
            Some(p) => p + 1,
            None => 0,
        },
    {
        match cur {
            None => {
                break;
            },
            Some(p) => {
                let node = &arena[p];
                proof {
                    assert(parent_below(a[p as int], p as int));
                }
                let own = segment_of(node);
                let ghost rb = segment_views(rev@);
                let mut own_mut = own;
                rev.append(&mut own_mut);
                proof {
                    assert(segment_views(rev@) =~= rb + segment_seq(node@.segment));
                    lemma_reversed_append(rb, segment_seq(node@.segment));
                    assert(arena_segments(a, p as int) == prefix_segments(a, node.parent) + segment_seq(node@.segment));
                }
                cur = node.parent;
            },
        }
    }
    proof {
        assert(prefix_segments(a, cur) =~= Seq::<SegmentView>::empty());
        assert(path_segments(a, x@) =~= reversed(segment_views(rev@)));
    }
    reverse_segments(rev)
}

/// The cost breakdown of the segments of the path `x`, first to last.
fn walk_steps(arena: &Vec<PathNode>, x: &PathNode) -> (r: Vec<SegmentCost>)
    requires
        arena_wf(nodes_view(arena@)),
        parent_below(x@, arena@.len() as int),
    ensures
        step_views(r@) == path_steps(nodes_view(arena@), x@),
{
    let ghost a = nodes_view(arena@);
    let mut rev = step_of(x);
    let mut cur = x.parent;
    proof {
        assert(reversed(step_views(rev@)) =~= step_views(rev@));
    }
    loop
        invariant
            a == nodes_view(arena@),
            arena_wf(a),
            match cur {
                Some(p) => p < arena@.len(),
                None => true,
            },
            path_steps(a, x@) == prefix_steps(a, cur) + reversed(step_views(rev@)),
        ensures
            cur is None,
            path_steps(a, x@) == prefix_steps(a, cur) + reversed(step_views(rev@)),
        decreases match cur {
            Some(p) => p + 1,
            None => 0,
        },
    {
        match cur {
            None => {
                break;
            },
            Some(p) => {
                let node = &arena[p];
                proof {
                    assert(parent_below(a[p as int], p as int));
                }
                let own = step_of(node);
                let ghost rb = step_views(rev@);
                let mut own_mut = own;
                rev.append(&mut own_mut);
                proof {
                    assert(step_views(rev@) =~= rb + step_seq(node@.segment, node@.step));
                    lemma_reversed_append(rb, step_seq(node@.segment, node@.step));
                    assert(arena_steps(a, p as int) == prefix_steps(a, node.parent) + step_seq(node@.segment, node@.step));
                }
                cur = node.parent;
            },
        }
    }
    proof {
        assert(prefix_steps(a, cur) =~= Seq::<SegmentCostView>::empty());
        assert(path_steps(a, x@) =~= reversed(step_views(rev@)));
    }
    reverse_steps(rev)
}

} // verus!

verus! {

/// The concatenated surfaces of `segs`.
fn text_of(segs: &Vec<Segment>) -> (r: String)
    ensures
        r@ == surfaces_text(segment_views(segs@)),
{
    let ghost sv = segment_views(segs@);
    let mut text = String::new();
    let mut i: usize = 0;
    proof {
        assert(sv.take(0) =~= Seq::<SegmentView>::empty());
    }
    while i < segs.len()
        invariant
            i <= segs@.len(),
            sv == segment_views(segs@),
            text@ == surfaces_text(sv.take(i as int)),
        decreases segs@.len() - i,
    {
        let surface = crate::text::chars_of(segs[i].surface.as_str());
        let ghost before = text@;
        let mut k: usize = 0;
        while k < surface.len()
            invariant
                k <= surface@.len(),
                text@ == before + surface@.take(k as int),
            decreases surface@.len() - k,
        {
            crate::text::push_char(&mut text, surface[k]);
            proof {
                assert(surface@.take(k + 1) =~= surface@.take(k as int).push(surface@[k as int]));
                assert(before + surface@.take(k + 1) =~= (before + surface@.take(k as int)).push(surface@[k as int]));
            }
            k = k + 1;
        }
        proof {
            assert(surface@.take(surface@.len() as int) =~= surface@);
            assert(sv.take(i + 1).drop_last() =~= sv.take(i as int));
            assert(sv.take(i + 1).last() == sv[i as int]);
        }
        i = i + 1;
    }
    proof {
        assert(sv.take(segs@.len() as int) =~= sv);
    }
    text
}

/// The finished paths returned for a reading, with the expanded paths they point
/// into and their texts.
struct Conversions {
    arena: Vec<PathNode>,
    results: Vec<PathNode>,
    texts: Vec<String>,
}

impl Conversions {
    spec fn valid(self, d: Dictionary, chars: Seq<char>, limit: int, beam: int) -> bool {
        &&& (nodes_view(self.arena@), nodes_view(self.results@)) == spec_conversions(d, chars, limit, beam)
        &&& arena_wf(nodes_view(self.arena@))
        &&& all_below(nodes_view(self.results@), self.arena@.len() as int)
        &&& self.texts@.len() == self.results@.len()
        &&& forall|j: int|
            0 <= j < self.texts@.len() ==> (#[trigger] self.texts@[j])@ == path_text(
                nodes_view(self.arena@),
                self.results@[j]@,
            )
    }
}

/// Drops every path whose text an earlier one has.
fn dedup_texts(arena: &Vec<PathNode>, nodes: Vec<PathNode>) -> (r: (Vec<PathNode>, Vec<String>))
    requires
        arena_wf(nodes_view(arena@)),
        all_below(nodes_view(nodes@), arena@.len() as int),
    ensures
        nodes_view(r.0@) == distinct_texts(nodes_view(arena@), nodes_view(nodes@), nodes@.len() as int),
        all_below(nodes_view(r.0@), arena@.len() as int),
        r.1@.len() == r.0@.len(),
        forall|j: int| 0 <= j < r.1@.len() ==> (#[trigger] r.1@[j])@ == path_text(nodes_view(arena@), r.0@[j]@),
{
    let ghost a = nodes_view(arena@);
    let ghost orig = nodes_view(nodes@);
    let ghost n = nodes@.len() as int;
    let mut rest = nodes;
    let mut kept: Vec<PathNode> = Vec::new();
    let mut texts: Vec<String> = Vec::new();
    let ghost mut done: int = 0;
    while rest.len() > 0
        invariant
            0 <= done <= n,
            n == orig.len(),
            rest@.len() == n - done,
            a == nodes_view(arena@),
            arena_wf(a),
            all_below(orig, arena@.len() as int),
            nodes_view(rest@) == orig.skip(done),
            nodes_view(kept@) == distinct_texts(a, orig, done),
            all_below(nodes_view(kept@), arena@.len() as int),
            texts@.len() == kept@.len(),
            forall|j: int| 0 <= j < texts@.len() ==> (#[trigger] texts@[j])@ == path_text(a, kept@[j]@),
        decreases rest@.len(),
    {
        let ghost rb = rest@;
        let x = rest.remove(0);
        proof {
            assert(nodes_view(rb)[0] == orig.skip(done)[0]);
            assert(x@ == nodes_view(rb)[0]);
            assert(x@ == orig[done]);
            assert(nodes_view(rest@) =~= nodes_view(rb).drop_first());
            assert(nodes_view(rest@) =~= orig.skip(done + 1));
            assert(parent_below(orig[done], arena@.len() as int));
        }
        let segs = walk_segments(arena, &x);
        let t = text_of(&segs);
        let mut dup = false;
        let mut j: usize = 0;
        while j < texts.len()
            invariant
                j <= texts@.len(),
                dup == exists|i: int| 0 <= i < j && (#[trigger] texts@[i])@ == t@,
            decreases texts@.len() - j,
        {
            if texts[j] == t {
                dup = true;
            }
            j = j + 1;
        }
        let ghost kept_before = nodes_view(kept@);
        proof {
            let kv = distinct_texts(a, orig, done);
            assert(dup == exists|i: int| 0 <= i < kv.len() && path_text(a, #[trigger] kv[i]) == path_text(a, orig[done])) by {
                if dup {
                    let i = choose|i: int| 0 <= i < texts@.len() && (#[trigger] texts@[i])@ == t@;
                    assert(kv[i] == kept@[i]@);
                }
                if exists|i: int| 0 <= i < kv.len() && path_text(a, #[trigger] kv[i]) == path_text(a, orig[done]) {
                    let i = choose|i: int| 0 <= i < kv.len() && path_text(a, #[trigger] kv[i]) == path_text(a, orig[done]);
                    assert(kv[i] == kept@[i]@);
                    assert(texts@[i]@ == t@);
                }
            }
        }
        if !dup {
            kept.push(x);
            texts.push(t);
            proof {
                assert(nodes_view(kept@) =~= kept_before.push(orig[done]));
            }
        }
        proof {
            done = done + 1;
        }
    }
    (kept, texts)
}

} // verus!

verus! {

/// Runs the search for `reading` and selects the results.
fn conversions(d: &Dictionary, reading: &str, limit: usize, beam: usize) -> (r: Conversions)
    requires
        reading@.len() < usize::MAX,
    ensures
        r.valid(*d, reading@, limit as int, beam as int),
{
    let chars = crate::text::chars_of(reading);
    if chars.len() == 0 || limit == 0 {
        let r = Conversions { arena: Vec::new(), results: Vec::new(), texts: Vec::new() };
        proof {
            assert(nodes_view(r.arena@) =~= Seq::<NodeView>::empty());
            assert(nodes_view(r.results@) =~= Seq::<NodeView>::empty());
        }
        return r;
    }
    let widened = if beam < limit {
        limit
    } else {
        beam
    };
    let effective = if widened < 1 {
        1
    } else {
        widened
    };
    let (arena, mut paths) = run_search(d, &chars, effective);
    let n = chars.len();
    let ghost searched = pending_view(paths@);
    let mut last: Vec<PathNode> = Vec::new();
    paths.set_and_swap(n, &mut last);
    let ghost bound = arena@.len() as int;
    proof {
        assert(all_below(nodes_view(last@), bound)) by {
            assert forall|j: int| 0 <= j < nodes_view(last@).len() implies parent_below(#[trigger] nodes_view(last@)[j], bound) by {
                assert(searched[n as int] == nodes_view(last@));
            }
        }
    }
    let finished = finish_all(d, last, Ghost(bound));
    let sorted = sort_stable(finished, Ghost(bound));
    let (mut kept, mut texts) = dedup_texts(&arena, sorted);
    let ghost unique = nodes_view(kept@);
    if kept.len() > limit {
        kept.truncate(limit);
        texts.truncate(limit);
    }
    let r = Conversions { arena, results: kept, texts };
    proof {
        assert(nodes_view(r.results@) =~= at_most(unique, limit as int));
        assert forall|j: int| 0 <= j < nodes_view(r.results@).len() implies parent_below(
            #[trigger] nodes_view(r.results@)[j],
            r.arena@.len() as int,
        ) by {
            assert(nodes_view(r.results@)[j] == unique[j]);
        }
    }
    r
}

} // verus!

verus! {

/// Builds the candidates of `c`, in order.
fn build_candidates(c: Conversions, Ghost(d): Ghost<Dictionary>, Ghost(chars): Ghost<Seq<char>>, Ghost(limit): Ghost<int>, Ghost(beam): Ghost<int>) -> (r: Vec<Candidate>)
    requires
        c.valid(d, chars, limit, beam),
    ensures
        r@.map_values(|x: Candidate| x@) == spec_candidates(d, chars, limit, beam),
{
    let ghost a = nodes_view(c.arena@);
    let ghost results = nodes_view(c.results@);
    let Conversions { arena, results: mut rest, texts: mut rest_texts } = c;
    let mut out: Vec<Candidate> = Vec::new();
    let ghost n = results.len() as int;
    let ghost mut done: int = 0;
    while rest.len() > 0
        invariant
            0 <= done <= n,
            n == results.len(),
            rest@.len() == n - done,
            rest_texts@.len() == rest@.len(),
            a == nodes_view(arena@),
            arena_wf(a),
            all_below(results, arena@.len() as int),
            nodes_view(rest@) == results.skip(done),
            forall|j: int| 0 <= j < rest_texts@.len() ==> (#[trigger] rest_texts@[j])@ == path_text(a, rest@[j]@),
            out@.map_values(|x: Candidate| x@) == results.take(done).map_values(|x: NodeView| candidate_of(a, x)),
        decreases rest@.len(),
    {
        let ghost rb = rest@;
        let ghost tb = rest_texts@;
        let x = rest.remove(0);
        let text = rest_texts.remove(0);
        proof {
            assert(nodes_view(rb)[0] == results.skip(done)[0]);
            assert(x@ == nodes_view(rb)[0]);
            assert(x@ == results[done]);
            assert(nodes_view(rest@) =~= nodes_view(rb).drop_first());
            assert(nodes_view(rest@) =~= results.skip(done + 1));
            assert(parent_below(results[done], arena@.len() as int));
            assert(text@ == path_text(a, x@)) by {
                assert(tb[0]@ == path_text(a, rb[0]@));
            }
            assert forall|j: int| 0 <= j < rest_texts@.len() implies (#[trigger] rest_texts@[j])@ == path_text(a, rest@[j]@) by {
                assert(rest_texts@[j] == tb[j + 1]);
                assert(rest@[j] == rb[j + 1]);
            }
        }
        let segments = walk_segments(&arena, &x);
        let candidate = Candidate { text, cost: key_of(&x), segments };
        let ghost ob = out@;
        out.push(candidate);
        proof {
            assert(candidate@.segments =~= path_segments(a, x@));
            assert(out@.map_values(|x: Candidate| x@) =~= ob.map_values(|x: Candidate| x@).push(candidate@));
            assert(results.take(done + 1).map_values(|x: NodeView| candidate_of(a, x)) =~= results.take(done).map_values(
                |x: NodeView| candidate_of(a, x),
            ).push(candidate_of(a, results[done])));
            done = done + 1;
        }
    }
    proof {
        assert(results.take(n) =~= results);
    }
    out
}

/// Builds the candidates of `c` with their cost breakdowns, in order.
fn build_candidate_costs(c: Conversions, Ghost(d): Ghost<Dictionary>, Ghost(chars): Ghost<Seq<char>>, Ghost(limit): Ghost<int>, Ghost(beam): Ghost<int>) -> (r: Vec<CandidateCost>)
    requires
        c.valid(d, chars, limit, beam),
    ensures
        r@.map_values(|x: CandidateCost| x@) == spec_candidate_costs(d, chars, limit, beam),
{
    let ghost a = nodes_view(c.arena@);
    let ghost results = nodes_view(c.results@);
    let Conversions { arena, results: mut rest, texts: mut rest_texts } = c;
    let mut out: Vec<CandidateCost> = Vec::new();
    let ghost n = results.len() as int;
    let ghost mut done: int = 0;
    while rest.len() > 0
        invariant
            0 <= done <= n,
            n == results.len(),
            rest@.len() == n - done,
            rest_texts@.len() == rest@.len(),
            a == nodes_view(arena@),
            arena_wf(a),
            all_below(results, arena@.len() as int),
            nodes_view(rest@) == results.skip(done),
            forall|j: int| 0 <= j < rest_texts@.len() ==> (#[trigger] rest_texts@[j])@ == path_text(a, rest@[j]@),
            out@.map_values(|x: CandidateCost| x@) == results.take(done).map_values(|x: NodeView| candidate_cost_of(a, x)),
        decreases rest@.len(),
    {
        let ghost rb = rest@;
        let ghost tb = rest_texts@;
        let x = rest.remove(0);
        let text = rest_texts.remove(0);
        proof {
            assert(nodes_view(rb)[0] == results.skip(done)[0]);
            assert(x@ == nodes_view(rb)[0]);
            assert(x@ == results[done]);
            assert(nodes_view(rest@) =~= nodes_view(rb).drop_first());
            assert(nodes_view(rest@) =~= results.skip(done + 1));
            assert(parent_below(results[done], arena@.len() as int));
            assert(text@ == path_text(a, x@)) by {
                assert(tb[0]@ == path_text(a, rb[0]@));
            }
            assert forall|j: int| 0 <= j < rest_texts@.len() implies (#[trigger] rest_texts@[j])@ == path_text(a, rest@[j]@) by {
                assert(rest_texts@[j] == tb[j + 1]);
                assert(rest@[j] == rb[j + 1]);
            }
        }
        let segments = walk_steps(&arena, &x);
        let candidate = CandidateCost {
            text,
            cost: key_of(&x),
            base_cost: x.base_cost,
            language_cost: x.language_cost,
            eos_connection_cost: x.eos_connection_cost,
            eos_language_cost: x.eos_language_cost,
            segments,
        };
        let ghost ob = out@;
        out.push(candidate);
        proof {
            assert(candidate@.segments =~= path_steps(a, x@));
            assert(out@.map_values(|x: CandidateCost| x@) =~= ob.map_values(|x: CandidateCost| x@).push(candidate@));
            assert(results.take(done + 1).map_values(|x: NodeView| candidate_cost_of(a, x)) =~= results.take(done).map_values(
                |x: NodeView| candidate_cost_of(a, x),
            ).push(candidate_cost_of(a, results[done])));
            done = done + 1;
        }
    }
    proof {
        assert(results.take(n) =~= results);
    }
    out
}

/// A kana-to-kanji conversion engine over a dictionary.
#[derive(Debug, Clone)]
pub struct Engine {
    dictionary: Dictionary,
}

impl Engine {
    pub closed spec fn spec_dictionary(self) -> Dictionary {
        self.dictionary
    }

    pub fn new(dictionary: Dictionary) -> (r: Self)
        ensures
            r.spec_dictionary() == dictionary,
    {
        Engine { dictionary }
    }

    /// An engine over the dictionary stored in the bytes of a `.mime` file.
    pub fn open(bytes: &[u8]) -> (r: Result<Self, crate::error::Error>)
        ensures
            match crate::dictionary::spec_parse_mime(bytes@) {
                Err(e) => r == Err::<Self, crate::error::Error>(e),
                Ok(v) => r matches Ok(engine) && {
                    let dict = engine.spec_dictionary();
                    &&& crate::dictionary::entry_views(dict.spec_entries()).to_multiset() == v.entries.to_multiset()
                    &&& dict.spec_matrix().spec_previous_size() == v.previous_size
                    &&& dict.spec_matrix().spec_next_size() == v.next_size
                    &&& dict.spec_matrix().spec_costs() == v.costs
                    &&& dict.spec_language_model().spec_view() == v.language_model
                },
            },
    {
        let dictionary = Dictionary::from_mime_bytes(bytes)?;
        Ok(Engine { dictionary })
    }

    /// The best conversion of `reading`, if there is any.
    pub fn convert(&self, reading: &str) -> (r: Option<Candidate>)
        requires
            reading@.len() < usize::MAX,
        ensures
            match r {
                Some(c) => spec_candidates(self.spec_dictionary(), reading@, 1, spec_internal_beam_width(1)).len() > 0
                    && c@ == spec_candidates(self.spec_dictionary(), reading@, 1, spec_internal_beam_width(1))[0],
                None => spec_candidates(self.spec_dictionary(), reading@, 1, spec_internal_beam_width(1)).len() == 0,
            },
            r is Some <==> reading@.len() > 0,
            r matches Some(c) ==> crate::theorems::well_formed_candidates(seq![c@], reading@, 1),
    {
        let mut all = self.candidates(reading, 1);
        if all.len() == 0 {
            None
        } else {
            let ghost v = all@;
            let first = all.remove(0);
            proof {
                assert(v.map_values(|x: Candidate| x@)[0] == first@);
                assert(v.len() == 1);
                assert(seq![first@] =~= v.map_values(|x: Candidate| x@));
            }
            Some(first)
        }
    }

    /// Up to `limit` conversions of `reading`, cheapest first, one per text.
    pub fn candidates(&self, reading: &str, limit: usize) -> (r: Vec<Candidate>)
        requires
            reading@.len() < usize::MAX,
        ensures
            r@.map_values(|x: Candidate| x@) == spec_candidates(
                self.spec_dictionary(),
                reading@,
                limit as int,
                spec_internal_beam_width(limit as int),
            ),
            crate::theorems::well_formed_candidates(r@.map_values(|x: Candidate| x@), reading@, limit as int),
    {
        let beam = internal_beam_width(limit);
        self.candidates_with_beam(reading, limit, beam)
    }

    /// Up to `limit` conversions of `reading` with their cost breakdowns.
    pub fn candidate_costs(&self, reading: &str, limit: usize) -> (r: Vec<CandidateCost>)
        requires
            reading@.len() < usize::MAX,
        ensures
            r@.map_values(|x: CandidateCost| x@) == spec_candidate_costs(
                self.spec_dictionary(),
                reading@,
                limit as int,
                spec_internal_beam_width(limit as int),
            ),
    {
        let beam = internal_beam_width(limit);
        self.candidate_costs_with_beam(reading, limit, beam)
    }

    /// Up to `limit` conversions of `reading`, keeping `internal_beam` paths (at
    /// least `limit`) at each position.
    pub fn candidates_with_beam(&self, reading: &str, limit: usize, internal_beam: usize) -> (r: Vec<Candidate>)
        requires
            reading@.len() < usize::MAX,
        ensures
            r@.map_values(|x: Candidate| x@) == spec_candidates(
                self.spec_dictionary(),
                reading@,
                limit as int,
                internal_beam as int,
            ),
            crate::theorems::well_formed_candidates(r@.map_values(|x: Candidate| x@), reading@, limit as int),
    {
        // Reading the length tells the proof that it fits a `usize`.
        let _entry_count: usize = self.dictionary.entries().len();
        proof {
            crate::theorems::lemma_candidates(self.dictionary, reading@, limit as int, internal_beam as int);
        }
        let c = conversions(&self.dictionary, reading, limit, internal_beam);
        build_candidates(c, Ghost(self.dictionary), Ghost(reading@), Ghost(limit as int), Ghost(internal_beam as int))
    }

    /// Up to `limit` conversions of `reading` with their cost breakdowns, keeping
    /// `internal_beam` paths (at least `limit`) at each position.
    pub fn candidate_costs_with_beam(&self, reading: &str, limit: usize, internal_beam: usize) -> (r: Vec<CandidateCost>)
        requires
            reading@.len() < usize::MAX,
        ensures
            r@.map_values(|x: CandidateCost| x@) == spec_candidate_costs(
                self.spec_dictionary(),
                reading@,
                limit as int,
                internal_beam as int,
            ),
    {
        let c = conversions(&self.dictionary, reading, limit, internal_beam);
        build_candidate_costs(c, Ghost(self.dictionary), Ghost(reading@), Ghost(limit as int), Ghost(internal_beam as int))
    }
}

} // verus!
