use lisp_core::equality::EqualKind;
use lisp_core::frame_list::{elements_of, frame_first_window, next_frame, previous_frame};
use lisp_core::frames::{
    Frame, FrameArena, LispFrameOrSelected, LispFrameRef, LispWindowRef, OutputMethod, Window,
};
use lisp_core::lisp::{LispError, LispObject, TypePredicate, SYM_HASH_TABLE_TEST};
use lisp_core::list_fns::list;
use lisp_core::lists::{LispConsCircularChecks, LispConsEndChecks, PairArena};
use lisp_core::mapping::{mapcar1, mapcar_over_iterator};
use lisp_core::symbols::{define_hash_table_test, get, put, LispSymbolRef, SymbolTable};

fn fix(n: i64) -> LispObject {
    LispObject::Fixnum(n)
}

fn sym(n: u32) -> LispObject {
    LispObject::Symbol(n)
}

fn identical(a: LispObject, b: LispObject, _kind: EqualKind, _depth: i32, _ht: LispObject) -> bool {
    a == b
}

fn numbers(items: &[i64], arena: &mut PairArena) -> LispObject {
    let objects: Vec<LispObject> = items.iter().map(|n| fix(*n)).collect();
    list(&objects, arena)
}

fn lists_equal(a: LispObject, b: LispObject, kind: EqualKind, arena: &PairArena) -> Result<bool, LispError> {
    a.as_cons()
        .unwrap()
        .equal(b.as_cons().unwrap(), kind, 0, LispObject::Nil, &identical, arena)
}

#[test]
fn equal_compares_lists_element_by_element() {
    let mut arena = PairArena::new();
    let a = numbers(&[1, 2, 3], &mut arena);
    let b = numbers(&[1, 2, 3], &mut arena);
    let c = numbers(&[1, 2, 4], &mut arena);
    let d = numbers(&[1, 2], &mut arena);
    for kind in [EqualKind::NoQuit, EqualKind::Plain, EqualKind::IncludingProperties] {
        assert_eq!(lists_equal(a, b, kind, &arena), Ok(true));
        assert_eq!(lists_equal(a, a, kind, &arena), Ok(true));
        assert_eq!(lists_equal(a, c, kind, &arena), Ok(false));
        assert_eq!(lists_equal(a, d, kind, &arena), Ok(false));
        assert_eq!(lists_equal(d, a, kind, &arena), Ok(false));
    }
}

#[test]
fn equal_compares_what_is_left_of_improper_lists() {
    let mut arena = PairArena::new();
    let a = LispObject::cons(&mut arena, fix(1), fix(5));
    let b = LispObject::cons(&mut arena, fix(1), fix(5));
    let c = LispObject::cons(&mut arena, fix(1), fix(6));
    assert_eq!(lists_equal(a, b, EqualKind::Plain, &arena), Ok(true));
    assert_eq!(lists_equal(a, c, EqualKind::Plain, &arena), Ok(false));
}

#[test]
fn equal_stops_early_at_a_shared_tail() {
    let mut arena = PairArena::new();
    let shared = numbers(&[7, 8], &mut arena);
    let a = LispObject::cons(&mut arena, fix(1), shared);
    let b = LispObject::cons(&mut arena, fix(1), shared);
    let asked = std::cell::Cell::new(0);
    let counting = |x: LispObject, y: LispObject, _k: EqualKind, _d: i32, _t: LispObject| {
        asked.set(asked.get() + 1);
        x == y
    };
    let r = a
        .as_cons()
        .unwrap()
        .equal(b.as_cons().unwrap(), EqualKind::Plain, 0, LispObject::Nil, &counting, &arena);
    assert_eq!(r, Ok(true));
    assert_eq!(asked.get(), 1);
}

#[test]
fn equal_hands_the_depth_on() {
    let mut arena = PairArena::new();
    let a = LispObject::cons(&mut arena, fix(1), fix(5));
    let b = LispObject::cons(&mut arena, fix(1), fix(6));
    let depths = std::cell::RefCell::new(Vec::new());
    let noting = |x: LispObject, y: LispObject, _k: EqualKind, d: i32, t: LispObject| {
        depths.borrow_mut().push((d, t));
        x == y
    };
    let table = sym(77);
    let cell_a = a.as_cons().unwrap();
    let cell_b = b.as_cons().unwrap();
    assert_eq!(cell_a.equal(cell_b, EqualKind::Plain, 4, table, &noting, &arena), Ok(false));
    // The element, then what is left when both lists stop.
    assert_eq!(*depths.borrow(), vec![(5, table), (5, table)]);
    depths.borrow_mut().clear();
    assert_eq!(cell_a.equal(cell_b, EqualKind::NoQuit, 4, table, &noting, &arena), Ok(false));
    assert_eq!(*depths.borrow(), vec![(0, LispObject::Nil), (5, table)]);
}

#[test]
fn equal_reports_a_circular_list_unless_told_not_to_look() {
    let mut arena = PairArena::new();
    let a = numbers(&[1, 2], &mut arena);
    let b = numbers(&[1, 2], &mut arena);
    let last_a = a.as_cons().unwrap().cdr(&arena).as_cons().unwrap();
    let last_b = b.as_cons().unwrap().cdr(&arena).as_cons().unwrap();
    last_a.set_cdr(&mut arena, a);
    last_b.set_cdr(&mut arena, b);
    assert!(matches!(
        lists_equal(a, b, EqualKind::Plain, &arena),
        Err(LispError::CircularStructure(_))
    ));
}

#[test]
fn mapcar_stores_as_many_results_as_there_is_room_for() {
    let mut arena = PairArena::new();
    let head = numbers(&[1, 2, 3], &mut arena);
    let next = |x: LispObject| match x {
        LispObject::Fixnum(n) => fix(n + 1),
        other => other,
    };
    let mut small = vec![LispObject::Nil; 2];
    assert_eq!(mapcar1(&mut small, &next, head, &arena), 3);
    assert_eq!(small, vec![fix(2), fix(3)]);
    let mut large = vec![sym(9); 5];
    assert_eq!(mapcar1(&mut large, &next, head, &arena), 3);
    assert_eq!(large, vec![fix(2), fix(3), fix(4), sym(9), sym(9)]);
    let mut none = vec![sym(9); 2];
    assert_eq!(mapcar1(&mut none, &next, LispObject::Nil, &arena), 0);
    assert_eq!(none, vec![sym(9); 2]);
}

#[test]
fn mapcar_over_a_walker_reports_the_error_of_the_walk() {
    let mut arena = PairArena::new();
    let head = LispObject::cons(&mut arena, fix(1), fix(2));
    let same = |x: LispObject| x;
    let mut out = vec![LispObject::Nil; 3];
    let it = head.iter_cars(LispConsEndChecks::on, LispConsCircularChecks::on);
    assert_eq!(
        mapcar_over_iterator(&mut out, &same, it, &arena),
        Err(LispError::WrongStructure(TypePredicate::Listp, head))
    );
    assert_eq!(out, vec![fix(1), LispObject::Nil, LispObject::Nil]);
}

fn symbols() -> SymbolTable {
    SymbolTable { plists: vec![LispObject::Nil; 8], overriding_plist_environment: LispObject::Nil }
}

#[test]
fn put_then_get_a_property() {
    let mut arena = PairArena::new();
    let mut table = symbols();
    let name = LispSymbolRef(3);
    assert_eq!(name.as_object(), sym(3));
    assert_eq!(get(name, sym(10), &table, &arena), Ok(LispObject::Nil));
    assert_eq!(put(name, sym(10), fix(1), &mut table, &mut arena), Ok(fix(1)));
    assert_eq!(put(name, sym(11), fix(2), &mut table, &mut arena), Ok(fix(2)));
    assert_eq!(put(name, sym(10), fix(3), &mut table, &mut arena), Ok(fix(3)));
    assert_eq!(get(name, sym(10), &table, &arena), Ok(fix(3)));
    assert_eq!(get(name, sym(11), &table, &arena), Ok(fix(2)));
    assert_eq!(get(LispSymbolRef(4), sym(10), &table, &arena), Ok(LispObject::Nil));
    assert_eq!(
        elements_of(name.get_plist(&table), &arena),
        vec![sym(10), fix(3), sym(11), fix(2)]
    );
}

#[test]
fn the_overriding_environment_comes_first() {
    let mut arena = PairArena::new();
    let mut table = symbols();
    let name = LispSymbolRef(3);
    put(name, sym(10), fix(1), &mut table, &mut arena).unwrap();
    put(name, sym(11), fix(2), &mut table, &mut arena).unwrap();
    let overriding = list(&[sym(10), fix(100)], &mut arena);
    let entry = LispObject::cons(&mut arena, sym(3), overriding);
    table.overriding_plist_environment = list(&[entry], &mut arena);
    assert_eq!(get(name, sym(10), &table, &arena), Ok(fix(100)));
    // What the environment does not hold is taken from the symbol.
    assert_eq!(get(name, sym(11), &table, &arena), Ok(fix(2)));
    table.overriding_plist_environment = fix(5);
    assert_eq!(
        get(name, sym(10), &table, &arena),
        Err(LispError::WrongStructure(TypePredicate::Listp, fix(5)))
    );
}

#[test]
fn put_on_a_malformed_property_list_is_an_error() {
    let mut arena = PairArena::new();
    let mut table = symbols();
    let name = LispSymbolRef(2);
    let odd = list(&[sym(10)], &mut arena);
    name.set_plist(&mut table, odd);
    assert_eq!(
        put(name, sym(11), fix(1), &mut table, &mut arena),
        Err(LispError::WrongStructure(TypePredicate::Plistp, odd))
    );
    assert_eq!(name.get_plist(&table), odd);
}

#[test]
fn a_hash_table_test_is_a_property_of_its_name() {
    let mut arena = PairArena::new();
    let mut table = symbols();
    let name = LispSymbolRef(5);
    let functions = define_hash_table_test(name, sym(20), sym(21), &mut table, &mut arena).unwrap();
    assert_eq!(elements_of(functions, &arena), vec![sym(20), sym(21)]);
    assert_eq!(
        get(name, sym(SYM_HASH_TABLE_TEST), &table, &arena),
        Ok(functions)
    );
}

fn frame() -> Frame {
    Frame {
        terminal: Some(0),
        visible: 1,
        iconified: false,
        pointer_invisible: false,
        output_method: OutputMethod::Termcap,
        left_fringe_width: 0,
        right_fringe_width: 0,
        internal_border_width: 0,
        right_divider_width: 0,
        bottom_divider_width: 0,
        left_pos: 0,
        top_pos: 0,
        text_cols: 80,
        text_lines: 24,
        total_cols: 80,
        total_lines: 24,
        text_width: 0,
        text_height: 0,
        selected_window: LispObject::Window(0),
        root_window: LispObject::Window(2),
        after_make_frame: false,
        inhibit_horizontal_resize: false,
        inhibit_vertical_resize: false,
    }
}

fn three_frames() -> FrameArena {
    FrameArena {
        frames: vec![frame(), frame(), frame()],
        windows: vec![
            Window { frame: LispObject::Frame(0), contents: LispObject::Buffer(1) },
            Window { frame: LispObject::Frame(0), contents: LispObject::Window(0) },
            Window { frame: LispObject::Frame(0), contents: LispObject::Window(1) },
        ],
        current_frame: LispObject::Frame(0),
        current_window: LispObject::Window(0),
    }
}

fn frame_list(arena: &mut PairArena) -> LispObject {
    list(
        &[LispObject::Frame(0), LispObject::Frame(1), LispObject::Frame(2)],
        arena,
    )
}

fn any(f: LispObject, _frame: LispObject, _miniframe: LispObject) -> LispObject {
    f
}

fn none(_f: LispObject, _frame: LispObject, _miniframe: LispObject) -> LispObject {
    LispObject::Nil
}

fn only_first(f: LispObject, _frame: LispObject, _miniframe: LispObject) -> LispObject {
    if f == LispObject::Frame(0) {
        f
    } else {
        LispObject::Nil
    }
}

fn of(i: usize) -> LispFrameOrSelected {
    LispFrameOrSelected::Frame(LispFrameRef(i))
}

#[test]
fn next_frame_goes_round_the_list() {
    let mut arena = PairArena::new();
    let frames = three_frames();
    let all = frame_list(&mut arena);
    let nil = LispObject::Nil;
    assert_eq!(next_frame(of(0), nil, all, &any, &frames, &arena), Ok(LispFrameRef(1)));
    assert_eq!(next_frame(of(1), nil, all, &any, &frames, &arena), Ok(LispFrameRef(2)));
    assert_eq!(next_frame(of(2), nil, all, &any, &frames, &arena), Ok(LispFrameRef(0)));
    assert_eq!(
        next_frame(LispFrameOrSelected::Selected, nil, all, &any, &frames, &arena),
        Ok(LispFrameRef(1))
    );
    assert_eq!(next_frame(of(1), nil, all, &none, &frames, &arena), Ok(LispFrameRef(1)));
    assert_eq!(
        next_frame(of(1), nil, all, &only_first, &frames, &arena),
        Ok(LispFrameRef(0))
    );
    assert_eq!(
        next_frame(of(0), nil, all, &only_first, &frames, &arena),
        Ok(LispFrameRef(0))
    );
}

#[test]
fn next_frame_asks_in_order_and_once_round() {
    let mut arena = PairArena::new();
    let frames = three_frames();
    let all = frame_list(&mut arena);
    let asked = std::cell::RefCell::new(Vec::new());
    let noting = |f: LispObject, frame: LispObject, miniframe: LispObject| {
        asked.borrow_mut().push((f, frame, miniframe));
        LispObject::Nil
    };
    assert_eq!(
        next_frame(of(1), fix(0), all, &noting, &frames, &arena),
        Ok(LispFrameRef(1))
    );
    let order: Vec<LispObject> = asked.borrow().iter().map(|a| a.0).collect();
    assert_eq!(
        order,
        vec![
            LispObject::Frame(2),
            LispObject::Frame(0),
            LispObject::Frame(1),
            LispObject::Frame(2)
        ]
    );
    assert!(asked.borrow().iter().all(|a| a.1 == LispObject::Frame(1) && a.2 == fix(0)));
}

#[test]
fn next_frame_reports_what_is_no_frame() {
    let mut arena = PairArena::new();
    let frames = three_frames();
    let mixed = list(&[LispObject::Frame(0), fix(9), LispObject::Frame(1)], &mut arena);
    assert_eq!(
        next_frame(of(0), LispObject::Nil, mixed, &none, &frames, &arena),
        Err(LispError::WrongType(TypePredicate::Framep, fix(9)))
    );
    assert_eq!(
        next_frame(of(1), LispObject::Nil, mixed, &any, &frames, &arena),
        Err(LispError::WrongType(TypePredicate::Framep, fix(9)))
    );
    let mut dead = three_frames();
    dead.frames[1].terminal = None;
    let all = frame_list(&mut arena);
    assert_eq!(
        next_frame(of(1), LispObject::Nil, all, &any, &dead, &arena),
        Err(LispError::WrongType(TypePredicate::FrameLivep, LispObject::Frame(1)))
    );
}

#[test]
fn previous_frame_goes_round_the_list() {
    let mut arena = PairArena::new();
    let frames = three_frames();
    let all = frame_list(&mut arena);
    let nil = LispObject::Nil;
    assert_eq!(previous_frame(of(1), nil, all, &any, &frames, &arena), Ok(LispFrameRef(0)));
    assert_eq!(previous_frame(of(2), nil, all, &any, &frames, &arena), Ok(LispFrameRef(1)));
    assert_eq!(previous_frame(of(0), nil, all, &any, &frames, &arena), Ok(LispFrameRef(2)));
    assert_eq!(previous_frame(of(1), nil, all, &none, &frames, &arena), Ok(LispFrameRef(1)));
    assert_eq!(
        previous_frame(of(2), nil, all, &only_first, &frames, &arena),
        Ok(LispFrameRef(0))
    );
    let mixed = list(&[LispObject::Frame(0), fix(9)], &mut arena);
    assert_eq!(
        previous_frame(of(1), nil, mixed, &any, &frames, &arena),
        Err(LispError::WrongType(TypePredicate::Framep, fix(9)))
    );
}

#[test]
fn first_window_is_at_the_bottom_of_the_tree() {
    let frames = three_frames();
    assert_eq!(
        frame_first_window(LispObject::Nil, &frames),
        Ok(LispWindowRef(0))
    );
    assert_eq!(
        frame_first_window(LispObject::Frame(1), &frames),
        Ok(LispWindowRef(0))
    );
    let mut odd = three_frames();
    odd.frames[0].root_window = fix(3);
    assert_eq!(
        frame_first_window(LispObject::Nil, &odd),
        Err(LispError::WrongType(TypePredicate::Windowp, fix(3)))
    );
}
