use easy_fs::LocalContext;

#[test]
fn test_context() {
    let mut _a = LocalContext::empty();
    assert_eq!(false, _a.supervisor);
    assert_eq!(false, _a.interrupt);
    assert_eq!(0, _a.pc());
    _a = LocalContext::user(04);
    assert_eq!(false, _a.supervisor);
    assert_eq!(true, _a.interrupt);
    assert_eq!(04, _a.pc());
    _a = LocalContext::thread(04, false);
    assert_eq!(true, _a.supervisor);
    assert_eq!(false, _a.interrupt);
    assert_eq!(04, _a.pc());
    _a = LocalContext::thread(04, true);
    assert_eq!(true, _a.supervisor);
    assert_eq!(true, _a.interrupt);
    assert_eq!(04, _a.pc());

    let _x = _a.x(1);
    assert_eq!(0, _a.x(1));
    assert_eq!(0, _a.a(1));
    assert_eq!(0, _a.ra());
    assert_eq!(0, _a.sp());
    assert_eq!(04, _a.pc());

    _a.move_next();
    assert_eq!(08, _a.pc());

    let mut _b = LocalContext {
        sctx: 0,
        x: [
            0, 1, 2, 3, 4, 5, 6, 7, 8, 9, 10, 11, 12, 13, 14, 15, 16, 17, 18, 19, 20, 21, 22, 23,
            24, 25, 26, 27, 28, 29, 30,
        ],
        supervisor: false,
        interrupt: false,
        sepc: 0,
    };
    (&mut _b).x_mut(1);

    assert_eq!(0, _b.x(1));
    assert_eq!(0, *(&mut _b).x_mut(1));
    assert_eq!(10, *(&mut _b).a_mut(1));
    assert_eq!(1, *(&mut _b).sp_mut());
    assert_eq!(0, *(&mut _b).pc_mut());
}

#[test]
fn setters_change_one_register() {
    let mut c = LocalContext::empty();
    *c.x_mut(5) = 55;
    *c.a_mut(0) = 100;
    *c.sp_mut() = 0x8000;
    *c.pc_mut() = 0x1000;
    assert_eq!(c.x(5), 55);
    assert_eq!(c.a(0), 100);
    assert_eq!(c.x(10), 100);
    assert_eq!(c.sp(), 0x8000);
    assert_eq!(c.x(2), 0x8000);
    assert_eq!(c.pc(), 0x1000);
    assert_eq!(c.ra(), 0);
}

#[test]
fn move_next_wraps() {
    let mut c = LocalContext::user(usize::MAX - 1);
    c.move_next();
    assert_eq!(c.pc(), 2);
}
