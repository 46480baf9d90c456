use memnix::arena::{Arena, ArenaId};
use memnix::lazy_arena::{LazyArena, LazyArenaId};

#[test]
fn arena_allocate_then_get() {
    let mut arena: Arena<u32> = Arena::new();
    let a = arena.allocate(10);
    let b = arena.allocate(20);
    assert_eq!(a.idx(), 0);
    assert_eq!(b.idx(), 1);
    assert_eq!(*arena.get(a), 10);
    assert_eq!(*arena.get(b), 20);
    assert_eq!(arena.size(), 2);
}

#[test]
fn arena_get_index_from_checks_bounds() {
    let mut arena: Arena<u32> = Arena::new();
    arena.allocate(1);
    arena.allocate(2);
    assert_eq!(arena.get_index_from(1), Some(ArenaId(1)));
    assert_eq!(arena.get_index_from(2), None);
}

#[test]
fn arena_iter_indices_lists_every_id() {
    let arena = Arena::from_vec(vec!['a', 'b', 'c']);
    assert_eq!(arena.iter_indices(), vec![ArenaId(0), ArenaId(1), ArenaId(2)]);
}

fn shift_by(value: u32, offset: usize) -> u32 {
    value + offset as u32
}

#[test]
fn arena_extend_map_appends_and_shifts_root() {
    let mut arena: Arena<u32> = Arena::from_vec(vec![7, 8]);
    let other: Arena<u32> = Arena::from_vec(vec![100, 200, 300]);
    let root = arena.extend_map(other, ArenaId(1), shift_by);
    assert_eq!(root, ArenaId(3));
    assert_eq!(arena.into_vec(), vec![7, 8, 102, 202, 302]);
}

fn double(v: u32) -> u64 {
    2 * v as u64
}

#[test]
fn arena_map_converts_every_value() {
    let arena: Arena<u32> = Arena::from_vec(vec![1, 2, 3]);
    let mapped = arena.map(double);
    assert_eq!(mapped.into_vec(), vec![2, 4, 6]);
}

#[test]
fn arena_replace_returns_previous_value() {
    let mut arena: Arena<u32> = Arena::from_vec(vec![1, 2, 3]);
    assert_eq!(arena.replace(ArenaId(1), 9), 2);
    assert_eq!(arena.into_vec(), vec![1, 9, 3]);
}

#[test]
fn arena_id_shifted_adds_offset() {
    assert_eq!(ArenaId::new(4).shifted(3), ArenaId(7));
}

fn tag(value: char, ids: &Vec<ArenaId>) -> (char, Vec<usize>) {
    (value, ids.iter().map(|id| id.idx()).collect())
}

#[test]
fn lazy_arena_flatten_removes_references() {
    let mut lazy: LazyArena<char> = LazyArena::new();
    let a = lazy.allocate('a');
    let d = lazy.alloc_deferred();
    let b = lazy.allocate('b');
    lazy.fill_deferred(d, b);
    assert_eq!(*lazy.get(d), 'b');
    assert_eq!(*lazy.get(a), 'a');
    let (flat, root) = lazy.flatten(d, ('?', vec![]), tag);
    // the reference slot stands for the value it points to
    assert_eq!(root, ArenaId(1));
    let items = flat.into_vec();
    assert_eq!(items.len(), 2);
    assert_eq!(items[0], ('a', vec![0, 1, 1]));
    assert_eq!(items[1], ('b', vec![0, 1, 1]));
}

#[test]
fn lazy_arena_flatten_places_cycle_placeholder_last() {
    let mut lazy: LazyArena<char> = LazyArena::new();
    let x = lazy.alloc_deferred();
    let y = lazy.alloc_deferred();
    let v = lazy.allocate('v');
    lazy.fill_deferred(x, y);
    lazy.fill_deferred(y, x);
    let (flat, root) = lazy.flatten(v, ('c', vec![]), tag);
    assert_eq!(root, ArenaId(0));
    let items = flat.into_vec();
    assert_eq!(items.len(), 2);
    assert_eq!(items[0], ('v', vec![1, 1, 0]));
    assert_eq!(items[1], ('c', vec![]));
}

#[test]
fn lazy_arena_without_cycle_has_no_placeholder() {
    let mut lazy: LazyArena<char> = LazyArena::new();
    let v = lazy.allocate('v');
    let (flat, _) = lazy.flatten(v, ('c', vec![]), tag);
    assert_eq!(flat.size(), 1);
    let _unused: LazyArenaId = v;
}
