//! Laws of rewriting: what `expand` and `level` guarantee whatever the rules.

use crate::lsystem::{expand, level, rewrite_sym, rewriter, Sym};
use vstd::prelude::*;
use vstd::seq_lib::lemma_flatten_concat;

verus! {

/// Rewriting is context-free: a sequence made of two parts rewrites to the
/// rewritten first part followed by the rewritten second part.
pub proof fn lemma_expand_concat(rules: Map<Sym, Seq<Sym>>, s: Seq<Sym>, t: Seq<Sym>)
    ensures
        expand(rules, s + t) == expand(rules, s) + expand(rules, t),
{
    let f = rewriter(rules);
    assert((s + t).map_values(f) =~= s.map_values(f) + t.map_values(f));
    lemma_flatten_concat(s.map_values(f), t.map_values(f));
}

/// A sequence of one symbol rewrites to what that symbol rewrites to.
pub proof fn lemma_expand_one(rules: Map<Sym, Seq<Sym>>, a: Sym)
    ensures
        expand(rules, seq![a]) == rewrite_sym(rules, a),
{
    seq![a].lemma_flat_map_singleton(rewriter(rules));
}

/// The empty sequence rewrites to itself.
pub proof fn lemma_expand_empty(rules: Map<Sym, Seq<Sym>>)
    ensures
        expand(rules, Seq::<Sym>::empty()) == Seq::<Sym>::empty(),
{
    assert(Seq::<Sym>::empty().map_values(rewriter(rules)) =~= Seq::<Seq<Sym>>::empty());
}

/// Rewriting keeps the order of the symbols: where `a` has the rule
/// `a -> rules[a]` and `b` the rule `b -> rules[b]`, the sequence `[a, b]`
/// rewrites to `rules[a]` followed by `rules[b]`.
pub proof fn lemma_expand_pair_in_order(rules: Map<Sym, Seq<Sym>>, a: Sym, b: Sym)
    requires
        rules.contains_key(a),
        rules.contains_key(b),
    ensures
        expand(rules, seq![a, b]) == rules[a] + rules[b],
{
    assert(seq![a, b] =~= seq![a] + seq![b]);
    lemma_expand_concat(rules, seq![a], seq![b]);
    lemma_expand_one(rules, a);
    lemma_expand_one(rules, b);
}

/// A symbol without a rule survives a rewriting step unchanged: it stands in
/// the result right behind what the symbols before it were rewritten to.
pub proof fn lemma_terminal_survives_step(rules: Map<Sym, Seq<Sym>>, state: Seq<Sym>, i: int)
    requires
        0 <= i < state.len(),
        !rules.contains_key(state[i]),
    ensures
        expand(rules, state) == expand(rules, state.take(i)) + seq![state[i]] + expand(
            rules,
            state.skip(i + 1),
        ),
        expand(rules, state.take(i)).len() < expand(rules, state).len(),
        expand(rules, state)[expand(rules, state.take(i)).len() as int] == state[i],
{
    assert(state =~= state.take(i) + seq![state[i]] + state.skip(i + 1));
    lemma_expand_concat(rules, state.take(i) + seq![state[i]], state.skip(i + 1));
    lemma_expand_concat(rules, state.take(i), seq![state[i]]);
    lemma_expand_one(rules, state[i]);
}

/// Where the symbol at position `i` of the seed sequence stands at depth `k`,
/// if that symbol has no rule: behind everything that the symbols before it
/// have become.
pub open spec fn terminal_position(
    rules: Map<Sym, Seq<Sym>>,
    seed: Seq<Sym>,
    i: int,
    k: nat,
) -> int
    decreases k,
{
    if k == 0 {
        i
    } else {
        expand(
            rules,
            level(rules, seed, (k - 1) as nat).take(
                terminal_position(rules, seed, i, (k - 1) as nat),
            ),
        ).len() as int
    }
}

/// A symbol without a rule appears unchanged at every depth, at the position
/// that `terminal_position` gives.
pub proof fn lemma_terminal_at_every_level(
    rules: Map<Sym, Seq<Sym>>,
    seed: Seq<Sym>,
    i: int,
    k: nat,
)
    requires
        0 <= i < seed.len(),
        !rules.contains_key(seed[i]),
    ensures
        0 <= terminal_position(rules, seed, i, k) < level(rules, seed, k).len(),
        level(rules, seed, k)[terminal_position(rules, seed, i, k)] == seed[i],
    decreases k,
{
    if k > 0 {
        lemma_terminal_at_every_level(rules, seed, i, (k - 1) as nat);
        lemma_terminal_survives_step(
            rules,
            level(rules, seed, (k - 1) as nat),
            terminal_position(rules, seed, i, (k - 1) as nat),
        );
    }
}

/// Rewriting `k` times what was rewritten `j` times is rewriting `j + k`
/// times: every level is a seed for the levels behind it.
pub proof fn lemma_levels_compose(rules: Map<Sym, Seq<Sym>>, seed: Seq<Sym>, j: nat, k: nat)
    ensures
        level(rules, level(rules, seed, j), k) == level(rules, seed, j + k),
    decreases k,
{
    if k > 0 {
        lemma_levels_compose(rules, seed, j, (k - 1) as nat);
    }
}

/// A symbol without a rule that stands at position `i` of level `j` appears
/// unchanged at every deeper level.
pub proof fn lemma_terminal_from_any_level(
    rules: Map<Sym, Seq<Sym>>,
    seed: Seq<Sym>,
    j: nat,
    i: int,
    k: nat,
)
    requires
        0 <= i < level(rules, seed, j).len(),
        !rules.contains_key(level(rules, seed, j)[i]),
    ensures
        0 <= terminal_position(rules, level(rules, seed, j), i, k) < level(
            rules,
            seed,
            j + k,
        ).len(),
        level(rules, seed, j + k)[terminal_position(rules, level(rules, seed, j), i, k)] == level(
            rules,
            seed,
            j,
        )[i],
{
    lemma_levels_compose(rules, seed, j, k);
    lemma_terminal_at_every_level(rules, level(rules, seed, j), i, k);
}

/// A sequence in which no symbol has a rule rewrites to itself.
pub proof fn lemma_expand_terminals(rules: Map<Sym, Seq<Sym>>, state: Seq<Sym>)
    requires
        forall|i: int| 0 <= i < state.len() ==> !rules.contains_key(#[trigger] state[i]),
    ensures
        expand(rules, state) == state,
    decreases state.len(),
{
    if state.len() == 0 {
        assert(state =~= Seq::<Sym>::empty());
        lemma_expand_empty(rules);
    } else {
        let front = state.drop_last();
        assert(state =~= front + seq![state.last()]);
        lemma_expand_concat(rules, front, seq![state.last()]);
        lemma_expand_one(rules, state.last());
        lemma_expand_terminals(rules, front);
    }
}

/// A seed sequence in which no symbol has a rule is every level.
pub proof fn lemma_levels_of_terminals(rules: Map<Sym, Seq<Sym>>, seed: Seq<Sym>, k: nat)
    requires
        forall|i: int| 0 <= i < seed.len() ==> !rules.contains_key(#[trigger] seed[i]),
    ensures
        level(rules, seed, k) == seed,
    decreases k,
{
    if k > 0 {
        lemma_levels_of_terminals(rules, seed, (k - 1) as nat);
        lemma_expand_terminals(rules, seed);
    }
}

} // verus!
