use mvutils::clock::Clock;
use mvutils::hashers::{I32IdentityHasher, I64IdentityHasher, U32IdentityHasher, U64IdentityHasher};
use mvutils::ordefault::OrDefault;
use mvutils::print::{Col, Fmt, Printer};
use mvutils::remake::Remake;
use mvutils::static_vec::StaticVec;
use mvutils::thread::ThreadSafe;
use mvutils::utils::{dec_string, key, IncDec, Overlap, Plural, Square, TetrahedronOp};

#[test]
fn column_keys() {
    assert_eq!(key(0), "a");
    assert_eq!(key(25), "z");
    assert_eq!(key(26), "aa");
    assert_eq!(key(27), "ab");
    assert_eq!(key(51), "az");
    assert_eq!(key(52), "ba");
    assert_eq!(key(701), "zz");
    assert_eq!(key(702), "aaa");
}

#[test]
fn decimal_strings() {
    assert_eq!(dec_string(0), "0");
    assert_eq!(dec_string(7), "7");
    assert_eq!(dec_string(10), "10");
    assert_eq!(dec_string(4294967295), "4294967295");
}

#[test]
fn plurals() {
    let word = "tick".to_string();
    assert_eq!(word.plural(1), "tick");
    assert_eq!(word.plural(2), "ticks");
    assert_eq!(word.plural_irregular("mice".to_string(), 3), "mice");
    assert_eq!("mouse".to_string().plural_irregular("mice".to_string(), 1), "mouse");
}

#[test]
fn numeric_helpers() {
    assert_eq!(7u32.square(), 49);
    assert_eq!((-4i64).square(), 16);
    assert_eq!(true.yn(1, 2), 1);
    assert_eq!(false.yn(1, 2), 2);

    // wrapping into [0, 9]
    assert_eq!(12i64.overlap(0, 9), 2);
    assert_eq!((-1i64).overlap(0, 9), 9);
    assert_eq!(5i64.overlap(0, 9), 5);

    let mut c: u64 = 5;
    assert_eq!(c.inc(), 6);
    assert_eq!(c.post_inc(), 6);
    assert_eq!(c, 7);
    assert_eq!(c.dec(), 6);
    assert_eq!(c.post_dec(), 6);
    assert_eq!(c, 5);
}

#[test]
fn or_default_reads() {
    let mut d: OrDefault<u32> = OrDefault::uninit(10);
    assert_eq!(*d.get(), 10);
    d.set(4);
    assert_eq!(*d.get(), 4);
    let e = OrDefault::new(1, 9);
    assert_eq!(e.take(), 1);
    let mut f: OrDefault<u32> = OrDefault::uninit_default();
    *f.get_mut() = 3;
    assert_eq!(f.take(), 3);
}

#[test]
fn remake_replaces_in_place() {
    let mut r = Remake::new(10u32);
    assert_eq!(*r.get(), 10);
    r.replace(|v| v + 5);
    assert_eq!(*r.get(), 15);
    *r.get_mut() = 2;
    assert_eq!(r.take(), 2);
}

#[test]
fn static_vec_slots() {
    let mut v: StaticVec<u32> = StaticVec::new(3);
    assert_eq!(v.len(), 3);
    assert!(!v.is_empty());
    assert!(v.get(0).is_none());
    assert!(v.get(7).is_none());
    v.set(1, 42);
    assert_eq!(v.get(1), Some(&42));
    let d: StaticVec<u32> = StaticVec::new_default(2);
    assert_eq!(d.get(0), Some(&0));
}

#[test]
fn thread_safe_wrapper() {
    let mut t = ThreadSafe::new(5u8);
    assert_eq!(*t.as_ref(), 5);
    *t.as_mut() = 6;
    assert_eq!(t.into_inner(), 6);
}

#[test]
fn identity_hashers() {
    let mut h = U64IdentityHasher::new();
    h.write_u64(77);
    assert_eq!(h.finish(), 77);
    let mut h = U32IdentityHasher::new();
    h.write_u32(5);
    assert_eq!(h.finish(), 5);
    let mut h = I64IdentityHasher::new();
    h.write_i64(-1);
    assert_eq!(h.finish(), u64::MAX);
    let mut h = I32IdentityHasher::new();
    h.write_i32(-1);
    assert_eq!(h.finish(), 0xFFFFFFFF);
}

#[test]
fn printer_builds_escape_codes() {
    let s = Printer::start().text("hi").finish();
    assert_eq!(s, "hi\u{1b}[0m");

    let s = Printer::start().col(Col::Red).text("r").finish();
    assert_eq!(s, "\u{1b}[31mr\u{1b}[0m");

    let s = Printer::start().fmt(Fmt::Bold).text("b").def().finish();
    assert_eq!(s, "\u{1b}[1mb\u{1b}[0m\u{1b}[0m");

    // an inset span restores the surrounding selection afterwards
    let s = Printer::start().col(Col::Green).col_for(Col::Red, "x").finish();
    assert_eq!(
        s,
        "\u{1b}[32m\u{1b}[31mx\u{1b}[32m\u{1b}[40m\u{1b}[0m\u{1b}[0m"
    );
}

#[test]
fn clock_gating() {
    let mut c = Clock::new_disabled(100);
    assert!(!c.is_enabled());
    assert!(!c.ready());
    assert!(!c.ready_and_tick());
    c.enable();
    assert!(c.is_enabled());
    c.disable();
    assert!(!c.is_enabled());
    c.set_tps(1);
    let c2 = Clock::new(50);
    assert!(c2.is_enabled());
}
