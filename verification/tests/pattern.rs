use flexer::pattern::Pattern;
use flexer::symbol::{Symbol, SymbolRange, EOF_CODE, NULL_CODE};

fn c(character: char) -> Pattern {
    Pattern::char(character)
}

fn l(literal: &str) -> Pattern {
    Pattern::all_of(literal)
}

#[test]
fn pattern_many1() {
    let many1 = l("abc").many1();
    let expected = l("abc") >> Pattern::Many(Box::new(l("abc")));
    assert_eq!(many1, expected);
}

#[test]
fn pattern_opt() {
    let opt = l("abc").opt();
    let expected = l("abc") | Pattern::Always;
    assert_eq!(opt, expected);
}

#[test]
fn pattern_all_of() {
    let all_of = Pattern::all_of("abcde");
    let expected = Pattern::Sequence(vec![Pattern::Always, c('a'), c('b'), c('c'), c('d'), c('e')]);
    assert_eq!(all_of, expected);
}

#[test]
fn pattern_any_of() {
    let any_of = Pattern::any_of("abcde");
    let expected = Pattern::Or(vec![Pattern::Never, c('a'), c('b'), c('c'), c('d'), c('e')]);
    assert_eq!(any_of, expected);
}

#[test]
fn pattern_none_of() {
    let none_of = Pattern::none_of("be");
    let expected = Pattern::Never
        | Pattern::Range(SymbolRange::new(Symbol::from(NULL_CODE + 1), Symbol::from('a')))
        | Pattern::Range(SymbolRange::new(Symbol::from('c'), Symbol::from('d')))
        | Pattern::Range(SymbolRange::new(Symbol::from('f'), Symbol::from(EOF_CODE - 1)));
    assert_eq!(none_of, expected);
}

#[test]
fn pattern_none_of_codes() {
    let none_of = Pattern::none_of_codes(&[33, 37]);
    let expected = Pattern::Range(SymbolRange::new(Symbol::null(), Symbol::from(32)))
        | Pattern::Never
        | Pattern::Range(SymbolRange::new(Symbol::from(34), Symbol::from(36)))
        | Pattern::Range(SymbolRange::new(Symbol::from(38), Symbol::eof_code()));
    assert_eq!(none_of, expected);
}

#[test]
fn pattern_not() {
    let not = Pattern::not('a');
    let expected = Pattern::none_of("a");
    assert_eq!(not, expected);
}

#[test]
fn pattern_not_symbol() {
    let symbol = Symbol::from('d');
    let not_symbol = Pattern::not_symbol(symbol);
    let expected = Pattern::Range(SymbolRange::new(Symbol::null(), Symbol::from('c')))
        | Pattern::Range(SymbolRange::new(Symbol::from('e'), Symbol::eof_code()));
    assert_eq!(not_symbol, expected);
}

#[test]
fn pattern_repeat() {
    let repeat = Pattern::repeat(&c('a'), 5);
    let expected = Pattern::all_of("aaaaa");
    assert_eq!(repeat, expected);
}

#[test]
fn pattern_repeat_between() {
    let repeat_between = Pattern::repeat_between(&c('a'), 2, 4);
    let expected = Pattern::never() | Pattern::all_of("aa") | Pattern::all_of("aaa");
    assert_eq!(repeat_between, expected);
}

#[test]
fn pattern_operator_shr() {
    let pattern_left = Pattern::char('a');
    let pattern_right = Pattern::not_symbol(Symbol::eof_code());
    let val_val = pattern_left.clone() >> pattern_right.clone();
    let ref_val = &pattern_left >> pattern_right.clone();
    let val_ref = pattern_left.clone() >> &pattern_right;
    let ref_ref = &pattern_left >> &pattern_right;
    let expected = Pattern::Sequence(vec![pattern_left, pattern_right]);
    assert_eq!(val_val, expected);
    assert_eq!(ref_val, expected);
    assert_eq!(val_ref, expected);
    assert_eq!(ref_ref, expected);
}

#[test]
fn pattern_operator_shr_collapse() {
    let seq = Pattern::Sequence(vec![c('a'), c('b')]);
    let lit = c('c');
    assert_eq!(&seq >> &seq, Pattern::Sequence(vec![c('a'), c('b'), c('a'), c('b')]));
    assert_eq!(&seq >> &lit, Pattern::Sequence(vec![c('a'), c('b'), c('c')]));
    assert_eq!(&lit >> &seq, Pattern::Sequence(vec![c('c'), c('a'), c('b')]));
    assert_eq!(&lit >> &lit, Pattern::Sequence(vec![c('c'), c('c')]));
}

#[test]
fn pattern_operator_bit_or() {
    let pattern_left = Pattern::char('a');
    let pattern_right = Pattern::not_symbol(Symbol::eof_code());
    let val_val = pattern_left.clone() | pattern_right.clone();
    let ref_val = &pattern_left | pattern_right.clone();
    let val_ref = pattern_left.clone() | &pattern_right;
    let ref_ref = &pattern_left | &pattern_right;
    let expected = Pattern::Or(vec![pattern_left, pattern_right]);
    assert_eq!(val_val, expected);
    assert_eq!(ref_val, expected);
    assert_eq!(val_ref, expected);
    assert_eq!(ref_ref, expected);
}

#[test]
fn pattern_operator_bit_or_collapse() {
    let seq = Pattern::Or(vec![c('a'), c('b')]);
    let lit = c('c');
    assert_eq!(&seq | &seq, Pattern::Or(vec![c('a'), c('b'), c('a'), c('b')]));
    assert_eq!(&seq | &lit, Pattern::Or(vec![c('a'), c('b'), c('c')]));
    assert_eq!(&lit | &seq, Pattern::Or(vec![c('c'), c('a'), c('b')]));
    assert_eq!(&lit | &lit, Pattern::Or(vec![c('c'), c('c')]));
}

#[test]
fn pattern_any_covers_whole_space() {
    let any = Pattern::any();
    let expected = Pattern::Range(SymbolRange::new(Symbol::null(), Symbol::eof_code()));
    assert_eq!(any, expected);
}

#[test]
fn pattern_eof_is_sentinel_symbol() {
    let eof = Pattern::eof();
    let expected = Pattern::Range(SymbolRange::new(Symbol::eof_code(), Symbol::eof_code()));
    assert_eq!(eof, expected);
}

#[test]
fn pattern_not_symbol_at_bounds() {
    assert_eq!(
        Pattern::not_symbol(Symbol::null()),
        Pattern::Range(SymbolRange::new(Symbol::from(1), Symbol::eof_code()))
    );
    assert_eq!(
        Pattern::not_symbol(Symbol::eof_code()),
        Pattern::Range(SymbolRange::new(Symbol::null(), Symbol::from(EOF_CODE - 1)))
    );
}
