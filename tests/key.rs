use rhkb::key::{
    parse_convert_modifier, Event, Key, Locks, ParseError, Pattern, ANY, CONTROL, LOCK, MOD1,
    MOD2, MOD4, NO_SYMBOL, SHIFT,
};
use x11::keysym::{XK_a, XK_f, XK_Tab};
use x11::xlib;

#[test]
fn parse() {
    assert_eq!(
        parse_convert_modifier("ctrl").unwrap(),
        Key::mask(xlib::ControlMask)
    )
}

#[test]
fn parse_mutliple() {
    let pattern = Pattern::parse("ctrl + a");
    let key = pattern.resolve(&vec![XK_a as u64]).unwrap();
    assert_eq!(key.mask, xlib::ControlMask);
    assert_eq!(key.sym, XK_a as u64);
}

#[test]
fn modifier_masks_match_the_x_protocol() {
    assert_eq!(SHIFT, xlib::ShiftMask);
    assert_eq!(LOCK, xlib::LockMask);
    assert_eq!(CONTROL, xlib::ControlMask);
    assert_eq!(MOD1, xlib::Mod1Mask);
    assert_eq!(MOD2, xlib::Mod2Mask);
    assert_eq!(MOD4, xlib::Mod4Mask);
    assert_eq!(ANY, xlib::AnyModifier);
}

#[test]
fn modifier_names_and_aliases() {
    assert_eq!(parse_convert_modifier("control"), Some(Key::mask(CONTROL)));
    assert_eq!(parse_convert_modifier("alt"), Some(Key::mask(MOD1)));
    assert_eq!(parse_convert_modifier("mod1"), Some(Key::mask(MOD1)));
    assert_eq!(parse_convert_modifier("super"), Some(Key::mask(MOD4)));
    assert_eq!(parse_convert_modifier("any"), Some(Key::mask(ANY)));
    assert_eq!(parse_convert_modifier("a"), None);
    assert_eq!(parse_convert_modifier("Ctrl"), None);
}

#[test]
fn key_constructors_and_merge() {
    assert_eq!(Key::builder(), Key { sym: NO_SYMBOL, mask: 0 });
    assert_eq!(Key::sym(7), Key { sym: 7, mask: 0 });
    let k = Key::builder().merge(Key::mask(CONTROL)).merge(Key::sym(5));
    assert_eq!(k, Key { sym: 5, mask: CONTROL });
    // a chord that already has a symbol keeps it
    assert_eq!(k.merge(Key::sym(9)), Key { sym: 5, mask: CONTROL });
}

#[test]
fn encoding_is_symbol_then_mask_little_endian() {
    let k = Key { sym: 0x0102_0304_0506_0708, mask: 0x0a0b_0c0d };
    assert_eq!(k.to_bytes(), [8, 7, 6, 5, 4, 3, 2, 1, 0x0d, 0x0c, 0x0b, 0x0a]);
}

#[test]
fn encoding_round_trips() {
    for k in [
        Key { sym: XK_f as u64, mask: CONTROL | MOD1 },
        Key::builder(),
        Key { sym: u64::MAX - 1, mask: u32::MAX },
        Key { sym: 0, mask: 0 },
    ] {
        assert_eq!(Key::from_bytes(&k.to_bytes()), k);
    }
}

#[test]
fn pattern_tokens_are_trimmed() {
    let p = Pattern::parse("  super+  Tab ");
    assert_eq!(p.mask, MOD4);
    assert_eq!(p.symbols, vec!["Tab".to_string()]);
    assert_eq!(
        p.resolve(&vec![XK_Tab as u64]),
        Ok(Key { sym: XK_Tab as u64, mask: MOD4 })
    );
}

#[test]
fn pattern_ctrl_alt_f() {
    let p = Pattern::parse("ctrl + alt + f");
    assert_eq!(p.mask, CONTROL | MOD1);
    assert_eq!(p.symbols, vec!["f".to_string()]);
    assert_eq!(
        p.resolve(&vec![XK_f as u64]),
        Ok(Key { sym: XK_f as u64, mask: CONTROL | MOD1 })
    );
}

#[test]
fn pattern_last_symbol_wins() {
    let p = Pattern::parse("a + shift + b");
    assert_eq!(p.symbols, vec!["a".to_string(), "b".to_string()]);
    assert_eq!(p.resolve(&vec![0x61, 0x62]), Ok(Key { sym: 0x62, mask: SHIFT }));
}

#[test]
fn pattern_unknown_symbol() {
    let p = Pattern::parse("ctrl + nosuchkey");
    assert_eq!(p.resolve(&vec![0]), Err(ParseError::UnknownSymbol));
    let p = Pattern::parse("nosuchkey + a");
    assert_eq!(p.resolve(&vec![0, 0x61]), Err(ParseError::UnknownSymbol));
}

#[test]
fn pattern_empty() {
    let p = Pattern::parse("");
    assert_eq!(p.mask, 0);
    assert!(p.symbols.is_empty());
    assert_eq!(p.resolve(&vec![]), Err(ParseError::Empty));
    let p = Pattern::parse(" \t ");
    assert!(p.symbols.is_empty());
    assert_eq!(p.resolve(&vec![]), Err(ParseError::Empty));
}

#[test]
fn pattern_empty_token_is_an_unknown_symbol() {
    let p = Pattern::parse(" + ");
    assert_eq!(p.symbols, vec!["".to_string(), "".to_string()]);
    assert_eq!(p.resolve(&vec![0, 0]), Err(ParseError::UnknownSymbol));
    let p = Pattern::parse("ctrl + ");
    assert_eq!(p.mask, CONTROL);
    assert_eq!(p.symbols, vec!["".to_string()]);
    assert_eq!(p.resolve(&vec![0]), Err(ParseError::UnknownSymbol));
    let p = Pattern::parse("ctrl + + a");
    assert_eq!(p.symbols, vec!["".to_string(), "a".to_string()]);
    assert_eq!(p.resolve(&vec![0, XK_a as u64]), Err(ParseError::UnknownSymbol));
}

#[test]
fn pattern_modifiers_only() {
    let p = Pattern::parse("super + shift");
    assert_eq!(p.resolve(&vec![]), Ok(Key { sym: NO_SYMBOL, mask: MOD4 | SHIFT }));
}

#[test]
fn default_locks() {
    let l = Locks::new();
    assert_eq!(l.num, Some(MOD2));
    assert_eq!(l.caps, None);
}

#[test]
fn event_matches_key() {
    let k = Key { sym: 1, mask: 2 };
    assert!(Event::KeyPress(k).matches_key(&k));
    assert!(Event::KeyRelease(k).matches_key(&k));
    assert!(!Event::KeyPress(Key { sym: 1, mask: 3 }).matches_key(&k));
    assert!(!Event::Other.matches_key(&k));
}
