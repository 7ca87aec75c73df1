use actionkv::context::Ctx;

#[test]
fn window_starts_empty() {
    let ctx = Ctx::with_capacity(3);
    assert_eq!(ctx.len(), 0);
    assert_eq!(ctx.get(0), None);
}

#[test]
fn window_fills_up_oldest_first() {
    let mut ctx = Ctx::with_capacity(3);
    ctx.push_back("one");
    ctx.push_back("two");
    assert_eq!(ctx.len(), 2);
    assert_eq!(ctx.get(0), Some("one"));
    assert_eq!(ctx.get(1), Some("two"));
    assert_eq!(ctx.get(2), None);
}

#[test]
fn full_window_lets_the_oldest_line_go() {
    let mut ctx = Ctx::with_capacity(2);
    ctx.push_back("one");
    ctx.push_back("two");
    ctx.push_back("three");
    assert_eq!(ctx.len(), 2);
    assert_eq!(ctx.get(0), Some("two"));
    assert_eq!(ctx.get(1), Some("three"));
    ctx.push_back("four");
    assert_eq!(ctx.len(), 2);
    assert_eq!(ctx.get(0), Some("three"));
    assert_eq!(ctx.get(1), Some("four"));
}

#[test]
fn window_of_one_holds_the_last_line() {
    let mut ctx = Ctx::with_capacity(1);
    ctx.push_back("a");
    ctx.push_back("b");
    assert_eq!(ctx.len(), 1);
    assert_eq!(ctx.get(0), Some("b"));
}

#[test]
fn window_without_room_only_grows() {
    let mut ctx = Ctx::with_capacity(0);
    ctx.push_back("a");
    ctx.push_back("b");
    assert_eq!(ctx.len(), 2);
    assert_eq!(ctx.get(0), Some("a"));
    assert_eq!(ctx.get(1), Some("b"));
}

#[test]
fn huge_capacity_allocates_nothing_up_front() {
    let mut ctx = Ctx::with_capacity(usize::MAX);
    ctx.push_back("a");
    assert_eq!(ctx.len(), 1);
    assert_eq!(ctx.get(usize::MAX), None);
}
