//! Building a production engine from text: an alphabet given as two strings
//! of letters, a seed word and production bodies written over that alphabet.

use crate::lsystem::{LSystem, Productions, Sym};
use std::collections::HashMap;
use vstd::prelude::*;
use vstd::std_specs::iter::IteratorSpec;
use vstd::string::StrSliceExecFns;

verus! {

broadcast use vstd::std_specs::hash::group_hash_axioms;

/// Why a configuration was turned down.
#[derive(PartialEq, Eq, Structural, Debug, Clone, Copy)]
pub enum ConfigError {
    /// The character is neither a declared letter nor one of `+ - [ ]`.
    UnknownSymbol(char),
}

/// The greatest position at which `c` stands in `letters`, if it stands there
/// at all.
pub open spec fn last_index_of(letters: Seq<char>, c: char) -> Option<nat>
    decreases letters.len(),
{
    if letters.len() == 0 {
        None
    } else if letters.last() == c {
        Some((letters.len() - 1) as nat)
    } else {
        last_index_of(letters.drop_last(), c)
    }
}

/// The symbol that one of the four fixed control characters stands for.
pub open spec fn control_sym(c: char) -> Option<Sym> {
    if c == '+' {
        Some(Sym::TurnLeft)
    } else if c == '-' {
        Some(Sym::TurnRight)
    } else if c == '[' {
        Some(Sym::Push)
    } else if c == ']' {
        Some(Sym::Pop)
    } else {
        None
    }
}

/// The symbol that `c` stands for under the alphabet given by the forward
/// letters `fwds` and the variable letters `vars`.
///
/// A letter's index is its position in its string; of a letter written
/// twice, the later position counts. A variable letter takes precedence over
/// a forward letter, and both over the control characters.
pub open spec fn sym_of_char(fwds: Seq<char>, vars: Seq<char>, c: char) -> Option<Sym> {
    if let Some(i) = last_index_of(vars, c) {
        Some(Sym::Var(i as usize))
    } else if let Some(i) = last_index_of(fwds, c) {
        Some(Sym::Fwd(i as usize))
    } else {
        control_sym(c)
    }
}

/// The first character of `text` that stands for no symbol, if there is one.
pub open spec fn first_unknown(fwds: Seq<char>, vars: Seq<char>, text: Seq<char>) -> Option<char>
    decreases text.len(),
{
    if text.len() == 0 {
        None
    } else if sym_of_char(fwds, vars, text.first()) is None {
        Some(text.first())
    } else {
        first_unknown(fwds, vars, text.drop_first())
    }
}

/// `text` symbol by symbol. Meant for a text without unknown characters.
pub open spec fn syms_of(fwds: Seq<char>, vars: Seq<char>, text: Seq<char>) -> Seq<Sym> {
    text.map_values(|c: char| sym_of_char(fwds, vars, c).unwrap())
}

/// A list of productions as it is written: of each the letter it rewrites
/// and its body.
pub open spec fn written_rules(prods: Seq<(char, &str)>) -> Seq<(char, Seq<char>)> {
    prods.map_values(|rule: (char, &str)| (rule.0, rule.1@))
}

/// Every character of a list of written productions, in reading order: of
/// each production the letter, then the body.
pub open spec fn rules_text(prods: Seq<(char, Seq<char>)>) -> Seq<char>
    decreases prods.len(),
{
    if prods.len() == 0 {
        Seq::empty()
    } else {
        rules_text(prods.drop_last()) + seq![prods.last().0] + prods.last().1
    }
}

/// Every character of a configuration that has to stand for a symbol, in
/// reading order: the seed word, then the productions.
pub open spec fn config_text(seed: Seq<char>, prods: Seq<(char, Seq<char>)>) -> Seq<char> {
    seed + rules_text(prods)
}

/// The rule set that a list of written productions stands for. Of two
/// productions for one letter the later one counts.
pub open spec fn rules_of(
    fwds: Seq<char>,
    vars: Seq<char>,
    prods: Seq<(char, Seq<char>)>,
) -> Map<Sym, Seq<Sym>>
    decreases prods.len(),
{
    if prods.len() == 0 {
        Map::empty()
    } else {
        rules_of(fwds, vars, prods.drop_last()).insert(
            sym_of_char(fwds, vars, prods.last().0).unwrap(),
            syms_of(fwds, vars, prods.last().1),
        )
    }
}

/// In a text joined of two parts the first unknown character is that of the
/// first part, or else that of the second.
pub proof fn lemma_first_unknown_concat(
    fwds: Seq<char>,
    vars: Seq<char>,
    a: Seq<char>,
    b: Seq<char>,
)
    ensures
        first_unknown(fwds, vars, a + b) == if first_unknown(fwds, vars, a) is Some {
            first_unknown(fwds, vars, a)
        } else {
            first_unknown(fwds, vars, b)
        },
    decreases a.len(),
{
    if a.len() == 0 {
        assert(a + b =~= b);
    } else {
        assert((a + b).drop_first() =~= a.drop_first() + b);
        lemma_first_unknown_concat(fwds, vars, a.drop_first(), b);
    }
}

/// The first unknown character of a text of one character is that character,
/// if it stands for no symbol.
pub proof fn lemma_first_unknown_one(fwds: Seq<char>, vars: Seq<char>, c: char)
    ensures
        first_unknown(fwds, vars, seq![c]) == if sym_of_char(fwds, vars, c) is None {
            Some(c)
        } else {
            None
        },
{
    assert(seq![c].first() == c);
    assert(seq![c].drop_first() =~= Seq::<char>::empty());
    assert(first_unknown(fwds, vars, Seq::<char>::empty()) is None);
}

/// A text has no unknown character exactly if each of its characters stands
/// for a symbol.
pub proof fn lemma_first_unknown_none(fwds: Seq<char>, vars: Seq<char>, text: Seq<char>)
    ensures
        first_unknown(fwds, vars, text) is None <==> forall|i: int|
            0 <= i < text.len() ==> sym_of_char(fwds, vars, #[trigger] text[i]) is Some,
    decreases text.len(),
{
    if text.len() > 0 {
        lemma_first_unknown_none(fwds, vars, text.drop_first());
        if first_unknown(fwds, vars, text) is None {
            assert forall|i: int| 0 <= i < text.len() implies sym_of_char(
                fwds,
                vars,
                #[trigger] text[i],
            ) is Some by {
                if i > 0 {
                    assert(text[i] == text.drop_first()[i - 1]);
                }
            }
        } else if sym_of_char(fwds, vars, text.first()) is Some {
            let rest = text.drop_first();
            let j = choose|j: int|
                0 <= j < rest.len() && !(sym_of_char(fwds, vars, #[trigger] rest[j]) is Some);
            assert(text[j + 1] == rest[j]);
        }
    }
}

/// The text of a list of productions joined of two lists is the text of the
/// first followed by the text of the second.
pub proof fn lemma_rules_text_concat(a: Seq<(char, Seq<char>)>, b: Seq<(char, Seq<char>)>)
    ensures
        rules_text(a + b) == rules_text(a) + rules_text(b),
    decreases b.len(),
{
    if b.len() == 0 {
        assert(a + b =~= a);
        assert(rules_text(a) + rules_text(b) =~= rules_text(a));
    } else {
        assert((a + b).drop_last() =~= a + b.drop_last());
        lemma_rules_text_concat(a, b.drop_last());
        assert(rules_text(a + b) =~= rules_text(a) + rules_text(b));
    }
}

/// The alphabet as a lookup table, keyed by the characters' code points.
struct Alphabet {
    table: HashMap<u32, Sym>,
}

impl Alphabet {
    /// Whether the table answers for the alphabet of `fwds` and `vars`.
    spec fn stands_for(&self, fwds: Seq<char>, vars: Seq<char>) -> bool {
        forall|c: char|
            match sym_of_char(fwds, vars, c) {
                Some(s) => (#[trigger] self.table@.contains_key(c as u32)) && self.table@[c as u32]
                    == s,
                None => !self.table@.contains_key(c as u32),
            }
    }

    /// The alphabet without letters: the four control characters.
    fn controls() -> (r: Alphabet)
        ensures
            r.stands_for(Seq::empty(), Seq::empty()),
    {
        let mut table: HashMap<u32, Sym> = HashMap::new();
        table.insert('+' as u32, Sym::TurnLeft);
        table.insert('-' as u32, Sym::TurnRight);
        table.insert('[' as u32, Sym::Push);
        table.insert(']' as u32, Sym::Pop);
        Alphabet { table }
    }

    /// Appends `c` to the forward letters, while there are no variable
    /// letters yet.
    fn push_fwd(&mut self, c: char, i: usize, Ghost(fwds): Ghost<Seq<char>>)
        requires
            old(self).stands_for(fwds, Seq::empty()),
            i == fwds.len(),
        ensures
            final(self).stands_for(fwds.push(c), Seq::empty()),
    {
        let ghost before = self.table@;
        self.table.insert(c as u32, Sym::Fwd(i));
        proof {
            assert(fwds.push(c).drop_last() =~= fwds);
            assert forall|d: char|
                match sym_of_char(fwds.push(c), Seq::empty(), d) {
                    Some(s) => (#[trigger] self.table@.contains_key(d as u32))
                        && self.table@[d as u32] == s,
                    None => !self.table@.contains_key(d as u32),
                } by {
                assert(match sym_of_char(fwds, Seq::empty(), d) {
                    Some(s) => before.contains_key(d as u32) && before[d as u32] == s,
                    None => !before.contains_key(d as u32),
                });
            }
        }
    }

    /// Appends `c` to the variable letters.
    fn push_var(
        &mut self,
        c: char,
        i: usize,
        Ghost(fwds): Ghost<Seq<char>>,
        Ghost(vars): Ghost<Seq<char>>,
    )
        requires
            old(self).stands_for(fwds, vars),
            i == vars.len(),
        ensures
            final(self).stands_for(fwds, vars.push(c)),
    {
        let ghost before = self.table@;
        self.table.insert(c as u32, Sym::Var(i));
        proof {
            assert(vars.push(c).drop_last() =~= vars);
            assert forall|d: char|
                match sym_of_char(fwds, vars.push(c), d) {
                    Some(s) => (#[trigger] self.table@.contains_key(d as u32))
                        && self.table@[d as u32] == s,
                    None => !self.table@.contains_key(d as u32),
                } by {
                assert(match sym_of_char(fwds, vars, d) {
                    Some(s) => before.contains_key(d as u32) && before[d as u32] == s,
                    None => !before.contains_key(d as u32),
                });
            }
        }
    }

    /// The alphabet of the forward letters `fwds` and the variable letters
    /// `vars`.
    fn new(fwds: &str, vars: &str) -> (r: Alphabet)
        ensures
            r.stands_for(fwds@, vars@),
    {
        let mut r = Alphabet::controls();
        let n_fwds = fwds.unicode_len();
        let mut i: usize = 0;
        assert(fwds@.take(0) =~= Seq::<char>::empty());
        for c in it: fwds.chars()
            invariant
                it.seq() == fwds@,
                fwds@.len() == n_fwds,
                i == it.index(),
                r.stands_for(fwds@.take(i as int), Seq::empty()),
        {
            r.push_fwd(c, i, Ghost(fwds@.take(i as int)));
            assert(fwds@.take(i + 1) =~= fwds@.take(i as int).push(c));
            i += 1;
        }
        assert(fwds@.take(fwds@.len() as int) =~= fwds@);

        let n_vars = vars.unicode_len();
        let mut j: usize = 0;
        assert(vars@.take(0) =~= Seq::<char>::empty());
        for c in it: vars.chars()
            invariant
                it.seq() == vars@,
                vars@.len() == n_vars,
                j == it.index(),
                r.stands_for(fwds@, vars@.take(j as int)),
        {
            r.push_var(c, j, Ghost(fwds@), Ghost(vars@.take(j as int)));
            assert(vars@.take(j + 1) =~= vars@.take(j as int).push(c));
            j += 1;
        }
        assert(vars@.take(vars@.len() as int) =~= vars@);
        r
    }

    /// `text` symbol by symbol, or its first character that is no symbol.
    fn read_text(
        &self,
        text: &str,
        Ghost(fwds): Ghost<Seq<char>>,
        Ghost(vars): Ghost<Seq<char>>,
    ) -> (r: Result<Vec<Sym>, ConfigError>)
        requires
            self.stands_for(fwds, vars),
        ensures
            match r {
                Ok(syms) => first_unknown(fwds, vars, text@) is None && syms@ == syms_of(
                    fwds,
                    vars,
                    text@,
                ),
                Err(ConfigError::UnknownSymbol(c)) => first_unknown(fwds, vars, text@) == Some(c),
            },
    {
        let mut out: Vec<Sym> = Vec::new();
        assert(text@.take(0) =~= Seq::<char>::empty());
        for c in it: text.chars()
            invariant
                it.seq() == text@,
                self.stands_for(fwds, vars),
                first_unknown(fwds, vars, text@.take(it.index() as int)) is None,
                out@ == syms_of(fwds, vars, text@.take(it.index() as int)),
        {
            let ghost k = it.index() as int;
            proof {
                assert(text@ =~= text@.take(k) + text@.skip(k));
                lemma_first_unknown_concat(fwds, vars, text@.take(k), text@.skip(k));
                assert(text@.take(k + 1) =~= text@.take(k) + seq![c]);
                lemma_first_unknown_concat(fwds, vars, text@.take(k), seq![c]);
                lemma_first_unknown_one(fwds, vars, c);
                assert(text@.skip(k).first() == c);
            }
            match self.lookup(c, Ghost(fwds), Ghost(vars)) {
                Some(sym) => {
                    out.push(sym);
                    assert(out@ =~= syms_of(fwds, vars, text@.take(k + 1)));
                },
                None => {
                    return Err(ConfigError::UnknownSymbol(c));
                },
            }
        }
        assert(text@.take(text@.len() as int) =~= text@);
        Ok(out)
    }

    /// The symbol that `c` stands for, if it stands for one.
    fn lookup(
        &self,
        c: char,
        Ghost(fwds): Ghost<Seq<char>>,
        Ghost(vars): Ghost<Seq<char>>,
    ) -> (r: Option<Sym>)
        requires
            self.stands_for(fwds, vars),
        ensures
            r == sym_of_char(fwds, vars, c),
    {
        let k = c as u32;
        assert(self.table@.contains_key(c as u32) || true);
        match self.table.get(&k) {
            Some(s) => Some(*s),
            None => None,
        }
    }
}

/// The engine that a configuration describes: `fwds` and `vars` declare the
/// forward and the variable letters, `seed` is the seed word, and `prods`
/// gives each production as a letter and its body.
///
/// The configuration is turned down where a character of the seed word or of
/// a production, its letter or its body, is no declared letter and none of
/// `+ - [ ]`; the error names the first such character in reading order.
pub fn lsystem_from_strs<A>(
    fwds: &str,
    vars: &str,
    seed: &str,
    prods: &[(char, &str)],
    angle_radians: A,
) -> (r: Result<LSystem<A>, ConfigError>)
    ensures
        match r {
            Ok(sys) => {
                &&& first_unknown(fwds@, vars@, config_text(seed@, written_rules(prods@))) is None
                &&& sys.wf()
                &&& sys.seed() == syms_of(fwds@, vars@, seed@)
                &&& sys.rules() == rules_of(fwds@, vars@, written_rules(prods@))
                &&& sys.angle() == angle_radians
                &&& sys.cache() == seq![sys.seed()]
            },
            Err(ConfigError::UnknownSymbol(c)) => first_unknown(
                fwds@,
                vars@,
                config_text(seed@, written_rules(prods@)),
            ) == Some(c),
        },
{
    let alphabet = Alphabet::new(fwds, vars);
    let ghost written = written_rules(prods@);
    proof {
        lemma_first_unknown_concat(fwds@, vars@, seed@, rules_text(written));
    }
    let seed_syms = match alphabet.read_text(seed, Ghost(fwds@), Ghost(vars@)) {
        Ok(syms) => syms,
        Err(e) => {
            return Err(e);
        },
    };
    let mut rules = Productions::new();
    let mut k: usize = 0;
    assert(written.take(0) =~= Seq::<(char, Seq<char>)>::empty());
    while k < prods.len()
        invariant
            k <= prods@.len(),
            written == written_rules(prods@),
            alphabet.stands_for(fwds@, vars@),
            first_unknown(fwds@, vars@, seed@) is None,
            first_unknown(fwds@, vars@, rules_text(written.take(k as int))) is None,
            rules@ == rules_of(fwds@, vars@, written.take(k as int)),
        decreases prods@.len() - k,
    {
        let (letter, body) = prods[k];
        proof {
            let done = written.take(k as int);
            let this = seq![letter] + body@;
            assert(written.take(k + 1).drop_last() =~= done);
            assert(written.take(k + 1).last() == (letter, body@));
            assert(rules_text(written.take(k + 1)) =~= rules_text(done) + this);
            assert(written =~= written.take(k + 1) + written.skip(k + 1));
            lemma_rules_text_concat(written.take(k + 1), written.skip(k + 1));
            assert(rules_text(written) =~= rules_text(done) + (this + rules_text(
                written.skip(k + 1),
            )));
            lemma_first_unknown_concat(
                fwds@,
                vars@,
                rules_text(done),
                this + rules_text(written.skip(k + 1)),
            );
            lemma_first_unknown_concat(fwds@, vars@, this, rules_text(written.skip(k + 1)));
            lemma_first_unknown_concat(fwds@, vars@, rules_text(done), this);
            lemma_first_unknown_concat(fwds@, vars@, seq![letter], body@);
            lemma_first_unknown_one(fwds@, vars@, letter);
            lemma_first_unknown_concat(fwds@, vars@, seed@, rules_text(written));
        }
        let key = match alphabet.lookup(letter, Ghost(fwds@), Ghost(vars@)) {
            Some(sym) => sym,
            None => {
                return Err(ConfigError::UnknownSymbol(letter));
            },
        };
        let body_syms = match alphabet.read_text(body, Ghost(fwds@), Ghost(vars@)) {
            Ok(syms) => syms,
            Err(e) => {
                return Err(e);
            },
        };
        rules.insert(key, body_syms);
        k += 1;
    }
    assert(written.take(prods@.len() as int) =~= written);
    Ok(LSystem::new(seed_syms, rules, angle_radians))
}

} // verus!
