use flexer::alphabet::{Division, Segmentation};
use flexer::symbol::{Symbol, SymbolRange};

#[test]
fn construct_division() {
    let symbol = Symbol::from('a');
    let division = Division::new(0, symbol);
    assert_eq!(division.position, 0);
    assert_eq!(division.symbol, Symbol::from('a'));
}

#[test]
fn contains_zero_element() {
    let segmentation = Segmentation::default();
    assert!(segmentation.divisions().contains(&Symbol::default()))
}

#[test]
fn symbol_insertion() {
    let mut segmentation = Segmentation::default();
    segmentation.insert(SymbolRange::new(Symbol::from('a'), Symbol::from('z')));
    assert!(segmentation.divisions().contains(&Symbol::from('a')));
    assert!(segmentation.divisions().contains(&Symbol::from('z' as u32 + 1)));
}

#[test]
fn len() {
    let num_to_insert = 10;
    let mut segmentation = Segmentation::default();
    for ix in 0..num_to_insert {
        segmentation.insert(SymbolRange::new(Symbol::from(100 + ix), Symbol::from(100 + ix)))
    }
    assert_eq!(segmentation.len(), (num_to_insert + 2) as usize);
}

#[test]
fn from_divisions_construction() {
    let segmentation = Segmentation::from_divisions(&[0, 5, 10, 15, 20]);
    assert_eq!(segmentation.len(), 5);
    assert!(segmentation.divisions.contains(&Symbol::from(15)));
}

#[test]
fn to_divisions() {
    let divisions = &[0u32, 5, 10, 15, 20];
    let segmentation = Segmentation::from_divisions(&[0, 5, 10, 15, 20]);
    let expected_divisions: Vec<Division> = divisions
        .iter()
        .enumerate()
        .map(|(ix, d)| {
            let symbol = Symbol::from(*d);
            Division::new(ix, symbol)
        })
        .collect();
    assert_eq!(expected_divisions, segmentation.divisions_as_vec())
}

#[test]
fn insert_range_reaching_eof_adds_no_upper_division() {
    let mut segmentation = Segmentation::default();
    segmentation.insert(SymbolRange::new(Symbol::from(40), Symbol::eof_code()));
    assert_eq!(segmentation.len(), 2);
    assert!(segmentation.divisions().contains(&Symbol::from(40)));
    assert!(!segmentation.divisions().contains(&Symbol::eof_code()));
}

#[test]
fn insert_is_idempotent_on_divisions() {
    let mut once = Segmentation::default();
    once.insert(SymbolRange::new(Symbol::from('b'), Symbol::from('d')));
    let mut twice = Segmentation::default();
    twice.insert(SymbolRange::new(Symbol::from('b'), Symbol::from('d')));
    twice.insert(SymbolRange::new(Symbol::from('b'), Symbol::from('d')));
    assert_eq!(once, twice);
}
