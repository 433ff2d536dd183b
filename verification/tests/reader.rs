use fractals::lsystem::Sym;
use fractals::lsystem_reader::{lsystem_from_strs, ConfigError};

fn seed_of(fwds: &str, vars: &str, seed: &str) -> Result<Vec<Sym>, ConfigError> {
    lsystem_from_strs(fwds, vars, seed, &[], 0.0f64).map(|mut sys| sys.get(0).to_vec())
}

#[test]
fn letters_take_their_index_from_their_position() {
    assert_eq!(
        seed_of("FG", "XYZ", "FGXYZ"),
        Ok(vec![Sym::Fwd(0), Sym::Fwd(1), Sym::Var(0), Sym::Var(1), Sym::Var(2)])
    );
}

#[test]
fn control_characters_are_always_known() {
    assert_eq!(
        seed_of("", "", "+-[]"),
        Ok(vec![Sym::TurnLeft, Sym::TurnRight, Sym::Push, Sym::Pop])
    );
}

#[test]
fn unknown_symbol_in_the_seed_is_turned_down() {
    let r = lsystem_from_strs("F", "X", "FXQ", &[('F', "FF")], 0.5f64);
    assert_eq!(r.err(), Some(ConfigError::UnknownSymbol('Q')));
}

#[test]
fn unknown_symbol_in_a_production_body_is_turned_down() {
    let r = lsystem_from_strs("F", "", "F", &[('F', "F+G")], 0.5f64);
    assert_eq!(r.err(), Some(ConfigError::UnknownSymbol('G')));
}

#[test]
fn unknown_production_letter_is_turned_down() {
    let r = lsystem_from_strs("F", "", "F", &[('F', "FF"), ('H', "F")], 0.5f64);
    assert_eq!(r.err(), Some(ConfigError::UnknownSymbol('H')));
}

#[test]
fn the_first_unknown_symbol_in_reading_order_is_named() {
    let r = lsystem_from_strs("F", "", "F1F2", &[('3', "4")], 0u8);
    assert_eq!(r.err(), Some(ConfigError::UnknownSymbol('1')));
    let r = lsystem_from_strs("F", "", "FF", &[('F', "F5"), ('6', "7")], 0u8);
    assert_eq!(r.err(), Some(ConfigError::UnknownSymbol('5')));
    let r = lsystem_from_strs("F", "", "FF", &[('F', "F"), ('6', "7")], 0u8);
    assert_eq!(r.err(), Some(ConfigError::UnknownSymbol('6')));
    let r = lsystem_from_strs("F", "", "FF", &[('F', "F"), ('F', "7")], 0u8);
    assert_eq!(r.err(), Some(ConfigError::UnknownSymbol('7')));
}

#[test]
fn empty_configuration_gives_an_empty_system() {
    let mut sys = lsystem_from_strs("", "", "", &[], 0.0f64).unwrap();
    assert_eq!(sys.get(0), &[][..]);
    assert_eq!(sys.get(2), &[][..]);
}

#[test]
fn a_letter_written_twice_takes_its_later_index() {
    assert_eq!(seed_of("FGF", "", "FG"), Ok(vec![Sym::Fwd(2), Sym::Fwd(1)]));
    assert_eq!(seed_of("", "XX", "X"), Ok(vec![Sym::Var(1)]));
}

#[test]
fn a_variable_letter_comes_before_a_forward_letter() {
    assert_eq!(seed_of("AB", "B", "AB"), Ok(vec![Sym::Fwd(0), Sym::Var(0)]));
}

#[test]
fn a_declared_letter_comes_before_a_control_character() {
    assert_eq!(
        seed_of("+", "[", "+-[]"),
        Ok(vec![Sym::Fwd(0), Sym::TurnRight, Sym::Var(0), Sym::Pop])
    );
}

#[test]
fn letters_beyond_ascii_are_letters() {
    assert_eq!(
        seed_of("\u{3b1}\u{3b2}", "\u{1F422}", "\u{3b2}\u{1F422}\u{3b1}"),
        Ok(vec![Sym::Fwd(1), Sym::Var(0), Sym::Fwd(0)])
    );
    assert_eq!(
        seed_of("\u{3b1}", "", "\u{3b2}"),
        Err(ConfigError::UnknownSymbol('\u{3b2}'))
    );
}

#[test]
fn productions_are_read_over_the_alphabet() {
    let mut sys =
        lsystem_from_strs("F", "X", "X", &[('X', "F[+X]-X"), ('F', "FF")], 0.4f64).unwrap();
    let f = Sym::Fwd(0);
    let x = Sym::Var(0);
    assert_eq!(
        sys.get(1),
        &[f, Sym::Push, Sym::TurnLeft, x, Sym::Pop, Sym::TurnRight, x][..]
    );
    assert_eq!(sys.get(2).len(), 2 + 1 + 1 + 7 + 1 + 1 + 7);
    assert_eq!(sys.angle_radians(), 0.4f64);
}

#[test]
fn of_two_productions_for_a_letter_the_later_counts() {
    let mut sys = lsystem_from_strs("F", "", "F", &[('F', "FF"), ('F', "F+")], 0u8).unwrap();
    assert_eq!(sys.get(1), &[Sym::Fwd(0), Sym::TurnLeft][..]);
}

#[test]
fn a_control_character_may_be_rewritten() {
    let mut sys = lsystem_from_strs("F", "", "F+", &[('+', "--")], 0u8).unwrap();
    assert_eq!(sys.get(1), &[Sym::Fwd(0), Sym::TurnRight, Sym::TurnRight][..]);
}
