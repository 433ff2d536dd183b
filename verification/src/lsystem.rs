use std::collections::HashMap;
use vstd::prelude::*;

verus! {

broadcast use vstd::std_specs::hash::group_hash_axioms;

/// One letter of an L-system's alphabet.
#[derive(PartialEq, Eq, Structural, Hash, Debug, Clone, Copy)]
pub enum Sym {
    /// A placeholder letter: it takes part in rewriting and draws nothing.
    Var(usize),
    /// A letter that draws one forward stroke.
    Fwd(usize),
    /// Turn left by the system's angle.
    TurnLeft,
    /// Turn right by the system's angle.
    TurnRight,
    /// Save position and heading.
    Push,
    /// Restore the position and heading saved last.
    Pop,
}

/// What one symbol becomes in one rewriting step: its production where it
/// has one, itself where it has none.
pub open spec fn rewrite_sym(rules: Map<Sym, Seq<Sym>>, s: Sym) -> Seq<Sym> {
    if rules.contains_key(s) {
        rules[s]
    } else {
        seq![s]
    }
}

/// One rewriting step on a whole sequence: every symbol is rewritten on its
/// own and the results are joined in the order of the symbols.
pub open spec fn expand(rules: Map<Sym, Seq<Sym>>, state: Seq<Sym>) -> Seq<Sym> {
    state.flat_map(rewriter(rules))
}

/// `rewrite_sym` under fixed rules, as a function of the symbol.
pub open spec fn rewriter(rules: Map<Sym, Seq<Sym>>) -> spec_fn(Sym) -> Seq<Sym> {
    |s: Sym| rewrite_sym(rules, s)
}

/// The sequence at iteration depth `k`: the seed sequence rewritten `k` times.
pub open spec fn level(rules: Map<Sym, Seq<Sym>>, seed: Seq<Sym>, k: nat) -> Seq<Sym>
    decreases k,
{
    if k == 0 {
        seed
    } else {
        expand(rules, level(rules, seed, (k - 1) as nat))
    }
}

/// The integer under which a symbol's production is stored. Distinct symbols
/// have distinct keys.
pub open spec fn sym_key(s: Sym) -> u128 {
    match s {
        Sym::Var(i) => (8 * i) as u128,
        Sym::Fwd(i) => (8 * i + 1) as u128,
        Sym::TurnLeft => 2,
        Sym::TurnRight => 3,
        Sym::Push => 4,
        Sym::Pop => 5,
    }
}

/// Two symbols with one key are one symbol.
pub proof fn lemma_sym_key_injective(a: Sym, b: Sym)
    ensures
        sym_key(a) == sym_key(b) <==> a == b,
{
}

fn key_of(s: Sym) -> (k: u128)
    ensures
        k == sym_key(s),
{
    match s {
        Sym::Var(i) => 8 * (i as u128),
        Sym::Fwd(i) => 8 * (i as u128) + 1,
        Sym::TurnLeft => 2,
        Sym::TurnRight => 3,
        Sym::Push => 4,
        Sym::Pop => 5,
    }
}

/// The production rules of an L-system: a finite map from a symbol to the
/// sequence that replaces it. A symbol has at most one rule.
pub struct Productions {
    table: HashMap<u128, Vec<Sym>>,
}

impl View for Productions {
    type V = Map<Sym, Seq<Sym>>;

    closed spec fn view(&self) -> Map<Sym, Seq<Sym>> {
        Map::new(
            |s: Sym| self.table@.contains_key(sym_key(s)),
            |s: Sym| self.table@[sym_key(s)]@,
        )
    }
}

impl Productions {
    /// The empty rule set: every symbol is terminal.
    pub fn new() -> (r: Productions)
        ensures
            r@ == Map::<Sym, Seq<Sym>>::empty(),
    {
        let r = Productions { table: HashMap::new() };
        assert(r@ =~= Map::<Sym, Seq<Sym>>::empty());
        r
    }

    /// Gives `sym` the rule `sym -> body`, in place of the rule it had, if any.
    pub fn insert(&mut self, sym: Sym, body: Vec<Sym>)
        ensures
            final(self)@ == old(self)@.insert(sym, body@),
    {
        let k = key_of(sym);
        self.table.insert(k, body);
        proof {
            assert forall|s: Sym| s != sym implies sym_key(s) != sym_key(sym) by {
                lemma_sym_key_injective(s, sym);
            }
            assert(self@ =~= old(self)@.insert(sym, body@));
        }
    }

    /// The rule of `sym`, if it has one.
    pub fn get(&self, sym: Sym) -> (r: Option<&Vec<Sym>>)
        ensures
            match r {
                Some(body) => self@.contains_key(sym) && body@ == self@[sym],
                None => !self@.contains_key(sym),
            },
    {
        let k = key_of(sym);
        self.table.get(&k)
    }
}

/// A production engine: a seed sequence, production rules, a turn angle that
/// it carries for the interpreter, and every level computed so far.
///
/// The angle's type is the caller's choice; the engine never reads the value.
pub struct LSystem<A> {
    iterations: Vec<Vec<Sym>>,
    productions: Productions,
    angle_radians: A,
}

impl<A> LSystem<A> {
    /// The engine's invariant: the cache is never empty and holds, without
    /// gaps, the levels from depth 0 up to its length.
    pub closed spec fn wf(&self) -> bool {
        &&& self.iterations@.len() >= 1
        &&& forall|k: int|
            0 <= k < self.iterations@.len() ==> (#[trigger] self.iterations@[k])@ == level(
                self.productions@,
                self.iterations@[0]@,
                k as nat,
            )
    }

    /// The seed sequence: level 0.
    pub closed spec fn seed(&self) -> Seq<Sym> {
        self.iterations@[0]@
    }

    /// The production rules.
    pub closed spec fn rules(&self) -> Map<Sym, Seq<Sym>> {
        self.productions@
    }

    /// The turn angle the engine was made with.
    pub closed spec fn angle(&self) -> A {
        self.angle_radians
    }

    /// The levels held in the cache, by depth.
    pub closed spec fn cache(&self) -> Seq<Seq<Sym>> {
        self.iterations@.map_values(|v: Vec<Sym>| v@)
    }

    /// The sequence at depth `k`, cached or not.
    pub open spec fn level(&self, k: nat) -> Seq<Sym> {
        level(self.rules(), self.seed(), k)
    }

    /// What a call of `get` with `index` makes of the engine `self`: the
    /// engine `after`.
    ///
    /// The system stays what it was. The cache holds what it held, and behind
    /// that the levels that were missing up to `index`; where none was
    /// missing it keeps its length.
    pub open spec fn get_step(&self, after: Self, index: usize) -> bool {
        &&& after.wf()
        &&& after.seed() == self.seed()
        &&& after.rules() == self.rules()
        &&& after.angle() == self.angle()
        &&& after.cache().len() == if index < self.cache().len() {
            self.cache().len()
        } else {
            (index + 1) as nat
        }
        &&& after.cache().take(self.cache().len() as int) == self.cache()
        &&& forall|k: int|
            0 <= k < after.cache().len() ==> #[trigger] after.cache()[k] == self.level(k as nat)
    }

    /// Asking for a level twice: the second call returns the sequence that
    /// the first returned, and leaves the cache as the first left it.
    pub proof fn lemma_get_again(&self, once: Self, twice: Self, index: usize)
        requires
            self.wf(),
            self.get_step(once, index),
            once.get_step(twice, index),
        ensures
            once.level(index as nat) == self.level(index as nat),
            twice.cache() == once.cache(),
    {
        assert(twice.cache().take(once.cache().len() as int) =~= twice.cache());
    }

    /// After a call of `get` with `index` the cache holds every level from 0
    /// up to `index`.
    pub proof fn lemma_get_fills_prefix(&self, after: Self, index: usize, k: nat)
        requires
            self.wf(),
            self.get_step(after, index),
            k <= index,
        ensures
            k < after.cache().len(),
            after.cache()[k as int] == after.level(k),
    {
        self.lemma_cache_is_prefix_of_levels();
    }

    /// In a well-formed engine the cache is a gapless prefix of the levels:
    /// it holds at least level 0, and its entry at depth `k` is level `k`.
    pub proof fn lemma_cache_is_prefix_of_levels(&self)
        requires
            self.wf(),
        ensures
            self.cache().len() >= 1,
            forall|k: int|
                0 <= k < self.cache().len() ==> #[trigger] self.cache()[k] == self.level(k as nat),
    {
    }

    /// An engine that holds level 0 alone.
    pub fn new(seed: Vec<Sym>, productions: Productions, angle_radians: A) -> (r: LSystem<A>)
        ensures
            r.wf(),
            r.seed() == seed@,
            r.rules() == productions@,
            r.angle() == angle_radians,
            r.cache() == seq![seed@],
    {
        let mut iterations: Vec<Vec<Sym>> = Vec::new();
        iterations.push(seed);
        let r = LSystem { iterations, productions, angle_radians };
        assert(r.cache() =~= seq![seed@]);
        r
    }

    /// One rewriting step on `state` under the engine's rules.
    pub fn compute_iteration(&self, state: &[Sym]) -> (r: Vec<Sym>)
        ensures
            r@ == expand(self.rules(), state@),
    {
        let mut result: Vec<Sym> = Vec::new();
        let mut i: usize = 0;
        assert(state@.take(0) =~= Seq::<Sym>::empty());
        while i < state.len()
            invariant
                i <= state@.len(),
                result@ == expand(self.productions@, state@.take(i as int)),
            decreases state@.len() - i,
        {
            let sym = state[i];
            let ghost before = result@;
            match self.productions.get(sym) {
                Some(sub) => {
                    result.extend_from_slice(sub.as_slice());
                    assert(result@ =~= before + sub@);
                },
                None => {
                    result.push(sym);
                    assert(result@ =~= before + seq![sym]);
                },
            }
            proof {
                state@.lemma_flat_map_take_append(rewriter(self.productions@), i as int);
            }
            i += 1;
        }
        assert(state@.take(state@.len() as int) =~= state@);
        result
    }

    /// The sequence at depth `index`. Levels that the cache lacks are computed
    /// in order and appended; levels that it holds are not computed again, and
    /// none is ever dropped.
    pub fn get(&mut self, index: usize) -> (r: &[Sym])
        requires
            old(self).wf(),
        ensures
            r@ == old(self).level(index as nat),
            old(self).get_step(*final(self), index),
    {
        while self.iterations.len() <= index
            invariant
                self.wf(),
                self.iterations@[0] == old(self).iterations@[0],
                self.productions == old(self).productions,
                self.angle_radians == old(self).angle_radians,
                self.iterations@.len() == old(self).iterations@.len() || self.iterations@.len()
                    <= index + 1,
                self.iterations@.len() >= old(self).iterations@.len(),
                self.iterations@.take(old(self).iterations@.len() as int) == old(
                    self,
                ).iterations@,
            decreases index + 1 - self.iterations@.len(),
        {
            let last = self.iterations.len() - 1;
            let next = self.compute_iteration(self.iterations[last].as_slice());
            let ghost before = self.iterations@;
            self.iterations.push(next);
            proof {
                assert(self.iterations@.take(old(self).iterations@.len() as int) =~= before.take(
                    old(self).iterations@.len() as int,
                ));
            }
        }
        proof {
            assert(self.cache().take(old(self).cache().len() as int) =~= old(self).cache());
        }
        self.iterations[index].as_slice()
    }

    /// The turn angle the engine was made with.
    pub fn angle_radians(&self) -> (r: A) where A: Copy
        ensures
            r == self.angle(),
    {
        self.angle_radians
    }

    /// How many levels the cache holds.
    pub fn cached_levels(&self) -> (r: usize)
        ensures
            r == self.cache().len(),
    {
        self.iterations.len()
    }
}

} // verus!
