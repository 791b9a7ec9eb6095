use rhkb::exec::CommandLine;
use rhkb::key::{Key, Locks, Pattern, CONTROL, LOCK, MOD1, MOD2, MOD4, SHIFT};
use rhkb::order::compare_keys;
use rhkb::table::{BuildError, Builder};
use x11::keysym::{XK_c, XK_f};

fn chord(pattern: &str, sym: u64) -> Key {
    Pattern::parse(pattern).resolve(&vec![sym]).unwrap()
}

#[test]
fn bind_ctrl_alt_f_and_look_it_up() {
    let mut b = Builder::new();
    b.bind(chord("ctrl + alt + f", XK_f as u64), CommandLine::parse("echo hello"));
    let c = b.finish().unwrap();
    assert_eq!(c.lookup(Key { sym: XK_f as u64, mask: CONTROL | MOD1 }), Some(0));
    assert_eq!(c.lookup(Key { sym: XK_f as u64, mask: CONTROL }), None);
    let cmd = c.execute(Key { sym: XK_f as u64, mask: CONTROL | MOD1 }).unwrap();
    assert_eq!(cmd.program, "echo");
    assert_eq!(cmd.args, vec!["hello".to_string()]);
}

#[test]
fn lock_states_find_the_same_command() {
    let mut b = Builder::new();
    b.bind(Key { sym: XK_f as u64, mask: CONTROL }, 7u32);
    let c = b.finish().unwrap();
    for mask in [CONTROL, CONTROL | MOD2, CONTROL | LOCK, CONTROL | MOD2 | LOCK] {
        assert_eq!(c.lookup(Key { sym: XK_f as u64, mask }), Some(0));
        assert_eq!(c.execute(Key { sym: XK_f as u64, mask }), Some(&7u32));
    }
    assert_eq!(c.lookup(Key { sym: XK_f as u64, mask: CONTROL | SHIFT }), None);
}

#[test]
fn lock_variants_of_a_chord() {
    let b: Builder<u8> = Builder::new();
    let k = Key { sym: 3, mask: SHIFT };
    assert_eq!(
        b.lock_variants(k),
        [
            k,
            Key { sym: 3, mask: SHIFT | MOD2 },
            Key { sym: 3, mask: SHIFT | LOCK },
            Key { sym: 3, mask: SHIFT | MOD2 | LOCK },
        ]
    );
}

#[test]
fn super_c_and_super_shift_c_are_distinct() {
    let mut b = Builder::new();
    let k0 = chord("mod4 + c", XK_c as u64);
    let k1 = chord("mod4 + shift + c", XK_c as u64);
    b.bind(k0, "bspc node -c");
    b.bind(k1, "bspc node -k");
    let c = b.finish().unwrap();
    assert_eq!(c.lookup(k0), Some(0));
    assert_eq!(c.lookup(k1), Some(1));
    assert_eq!(c.execute(k1), Some(&"bspc node -k"));
    // the shift bit moves the key without a collision
    assert_ne!(k0.to_bytes(), k1.to_bytes());
    assert_eq!(compare_keys(&k0.to_bytes(), &k1.to_bytes()), -1);
    assert_eq!(compare_keys(&k1.to_bytes(), &k0.to_bytes()), 1);
    assert_eq!(compare_keys(&k1.to_bytes(), &k1.to_bytes()), 0);
    assert_eq!(Key { sym: XK_c as u64, mask: MOD4 | SHIFT }, k1);
}

#[test]
fn two_chords_and_a_third() {
    let mut b = Builder::new();
    let c1 = Key { sym: 10, mask: MOD4 };
    let c2 = Key { sym: 11, mask: MOD4 };
    b.bind(c1, ());
    b.bind(c2, ());
    let c = b.finish().unwrap();
    assert_eq!(c.len(), 2);
    assert_eq!(c.lookup(c1), Some(0));
    assert_eq!(c.lookup(c2), Some(1));
    assert_eq!(c.lookup(Key { sym: 12, mask: MOD4 }), None);
}

#[test]
fn binding_a_pattern_twice_fails() {
    let mut b = Builder::new();
    let k = chord("super + e", 0x65);
    b.bind(k, "alacritty");
    b.bind(chord("super + z", 0x7a), "pcmanfm");
    b.bind(k, "xterm");
    assert!(matches!(b.finish(), Err(BuildError::DuplicatePattern)));
}

#[test]
fn binding_a_pattern_twice_to_one_index_value_is_fine() {
    // lock keys that add nothing collapse the four variants into one entry
    let mut b = Builder::with_locks(Locks { num: None, caps: Some(0) });
    let k = Key { sym: XK_f as u64, mask: CONTROL };
    b.bind(k, "x");
    assert_eq!(b.lock_variants(k), [k, k, k, k]);
    let c = b.finish().unwrap();
    assert_eq!(c.lookup(k), Some(0));
    assert_eq!(c.lookup(Key { sym: XK_f as u64, mask: CONTROL | LOCK }), None);
}

#[test]
fn finishing_twice_gives_the_same_bytes() {
    let build = || {
        let mut b = Builder::new();
        b.bind(Key { sym: 0x61, mask: MOD4 }, 1u8);
        b.bind(Key { sym: 0x62, mask: MOD4 | SHIFT }, 2u8);
        b.bind(Key { sym: 0x61, mask: CONTROL | MOD1 }, 3u8);
        b.finish().unwrap().to_bytes()
    };
    let first = build();
    let second = build();
    assert_eq!(first, second);
    // the map header: format version 3, then type 0
    assert_eq!(&first[..16], &[3, 0, 0, 0, 0, 0, 0, 0, 0, 0, 0, 0, 0, 0, 0, 0]);
    assert!(first.len() > 36);
}

#[test]
fn empty_table_matches_nothing() {
    let b: Builder<u8> = Builder::new();
    let c = b.finish().unwrap();
    assert_eq!(c.len(), 0);
    assert_eq!(c.lookup(Key { sym: 1, mask: 0 }), None);
    assert_eq!(c.execute(Key { sym: 1, mask: 0 }), None);
}

#[test]
fn unmatched_dispatch_leaves_the_table_alone() {
    let mut b = Builder::new();
    b.bind(Key { sym: 0x61, mask: MOD4 }, "a");
    let c = b.finish().unwrap();
    let before = c.to_bytes();
    assert_eq!(c.execute(Key { sym: 0x62, mask: MOD4 }), None);
    assert_eq!(c.to_bytes(), before);
    assert_eq!(c.lookup(Key { sym: 0x61, mask: MOD4 }), Some(0));
}

#[test]
fn failed_command_does_not_stop_later_dispatch() {
    let mut b = Builder::new();
    let bad = Key { sym: 0x61, mask: MOD4 };
    let good = Key { sym: 0x62, mask: MOD4 };
    b.bind(bad, CommandLine::parse("/nonexistent/program --flag"));
    b.bind(good, CommandLine::parse("true"));
    let c = b.finish().unwrap();
    let first = c.execute(bad).unwrap();
    assert_eq!(first.program, "/nonexistent/program");
    let second = c.execute(good).unwrap();
    assert_eq!(second.program, "true");
    assert!(second.args.is_empty());
}
