use rhkb::exec::{CommandLine, Sweep, SWEEP_PERIOD};
use rhkb::text::{split, split_trimmed, str_eq, trim};

#[test]
fn command_line_words() {
    let c = CommandLine::parse("bspc node -f west");
    assert_eq!(c.program, "bspc");
    assert_eq!(c.args, vec!["node", "-f", "west"]);
}

#[test]
fn command_line_double_space_gives_empty_argument() {
    let c = CommandLine::parse("a  b");
    assert_eq!(c.program, "a");
    assert_eq!(c.args, vec!["", "b"]);
    let c = CommandLine::parse("");
    assert_eq!(c.program, "");
    assert!(c.args.is_empty());
}

#[test]
fn sweep_every_period() {
    let mut s = Sweep::new();
    for _ in 0..3 {
        for _ in 1..SWEEP_PERIOD {
            assert!(!s.tick());
        }
        assert!(s.tick());
    }
    assert_eq!(SWEEP_PERIOD, 10);
}

#[test]
fn text_helpers() {
    assert_eq!(split("a+b++c", '+'), vec!["a", "b", "", "c"]);
    assert_eq!(split("", '+'), vec![""]);
    assert_eq!(split_trimmed(" a + b ", '+'), vec!["a", "b"]);
    assert_eq!(trim("\t x y \n"), "x y");
    assert_eq!(trim("   "), "");
    assert!(str_eq("ctrl", "ctrl"));
    assert!(!str_eq("ctrl", "ctr"));
    assert!(!str_eq("é", "e"));
}

#[test]
fn trim_agrees_with_std_on_unicode_spaces() {
    for s in ["\u{a0}x\u{3000}", "\u{2003} a b \u{85}", "\u{b}x\u{c}", "\u{200b}x"] {
        assert_eq!(trim(s), s.trim());
    }
}
