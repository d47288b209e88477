use regex_thompson::insert_explicit_concat_operator;
use regex_thompson::to_postfix;
use regex_thompson::Arena;

#[test]
fn test_insert_concat_between_literals() {
    assert_eq!(insert_explicit_concat_operator("ab"), "a\0b");
    assert_eq!(insert_explicit_concat_operator("abc"), "a\0b\0c");
}

#[test]
fn test_insert_concat_around_operators() {
    assert_eq!(insert_explicit_concat_operator("a(b|c)*d"), "a\0(b|c)*\0d");
    assert_eq!(insert_explicit_concat_operator("a|b"), "a|b");
    assert_eq!(insert_explicit_concat_operator("a*b"), "a*\0b");
    assert_eq!(insert_explicit_concat_operator(""), "");
}

#[test]
fn test_to_postfix_simple() {
    assert_eq!(to_postfix("a\0b"), "ab\0");
    assert_eq!(to_postfix("a|b"), "ab|");
    assert_eq!(to_postfix("a*"), "a*");
}

#[test]
fn test_to_postfix_precedence_and_groups() {
    // Union binds loosest, the marker sits in the middle, the star tightest.
    assert_eq!(to_postfix("a\0b|c"), "ab\0c|");
    assert_eq!(
        to_postfix(&insert_explicit_concat_operator("a(b|c)*d")),
        "abc|*\0d\0"
    );
}

#[test]
fn test_arena_identifiers_are_dense() {
    let mut arena: Arena<char> = Arena::new();
    assert!(arena.is_empty());
    assert_eq!(arena.len(), 0);
    assert_eq!(arena.next_id(), 0);
    let a = arena.allocate('a');
    let b = arena.allocate('b');
    assert_eq!(a, 0);
    assert_eq!(b, 1);
    assert_eq!(arena.len(), 2);
    assert!(!arena.is_empty());
    assert_eq!(arena.next_id(), 2);
    assert_eq!(*arena.get(0), 'a');
    assert_eq!(*arena.get(1), 'b');
    assert_eq!(arena.iter().len(), 2);
}

#[test]
fn test_arena_alloc_with_id() {
    let mut arena: Arena<usize> = Arena::new();
    arena.allocate(7);
    let id = arena.alloc_with_id(|i| i * 10);
    assert_eq!(id, 1);
    assert_eq!(*arena.get(1), 10);
}
