use gearbox::animation::{advance, render, step, Drive, Frame};
use gearbox::gears::Gear;
use gearbox::lexer::{parse_number, parse_string, skip_ws, Expected};
use gearbox::parser::parse;
use gearbox::rotation::{select, self_rot, Rot};

fn gear(src: &str) -> Gear {
    match parse(src) {
        Ok(g) => g,
        Err(e) => panic!("unexpected error at {}: {:?}", e.offset, e.expected),
    }
}

fn error_of(src: &str) -> (usize, Expected) {
    match parse(src) {
        Ok(_) => panic!("expected an error for {:?}", src),
        Err(e) => (e.offset, e.expected),
    }
}

fn run(g: &Gear, num: i64, den: u32) -> Frame {
    step(g, &Drive { num, den })
}

fn pairs(f: &Frame) -> Vec<(String, String)> {
    f.entries.clone()
}

fn one(label: &str, symbols: &str) -> Vec<(String, String)> {
    vec![(label.to_string(), symbols.to_string())]
}

#[test]
fn four_symbols_until_the_ender_fires() {
    let g = gear("c 4 {\"a\",\"b\",\"c\",\"d\"} e 1");
    let mut rot = Drive { num: 0, den: 4 };
    let mut shown = Vec::new();
    let mut steps = 0;
    loop {
        let f = step(&g, &rot);
        if f.stop {
            break;
        }
        shown.push(render(&f.entries));
        rot = advance(&rot, 1).unwrap();
        steps += 1;
        assert!(steps < 100);
    }
    assert_eq!(rot.num, 4);
    let expected: Vec<Vec<String>> = vec![
        vec!["a".to_string()],
        vec!["d".to_string()],
        vec!["d".to_string()],
        vec!["d".to_string()],
    ];
    assert_eq!(shown, expected);
}

#[test]
fn unterminated_string_is_reported_at_its_quote() {
    assert_eq!(error_of("c 4 \"ab"), (4, Expected::ClosingQuote));
}

#[test]
fn follower_turns_by_drive_over_its_teeth() {
    // the ender behind a genesis gear of 2 teeth turns by r / 3
    let g = gear("g 2 e 3");
    for num in [-400i64, -301, -300, -299, 0, 150, 299, 300, 301, 1000] {
        let f = run(&g, num, 100);
        assert_eq!(f.stop, num.abs() >= 300, "drive {}", num);
    }
}

#[test]
fn self_rot_applies_the_ratio_and_inverts() {
    let own = self_rot(Rot { num: 3, den: 10 }, 1, 4);
    assert_eq!((own.num, own.den), (-3, 40));
    let follower = self_rot(Rot { num: own.num, den: own.den }, 4, 6);
    assert_eq!((follower.num, follower.den), (3, 60));
}

#[test]
fn meshed_gears_do_not_disturb_each_other() {
    let both = gear("g 2 [c 3 \"abc\" l \"x\", c 5 \"abcde\" l \"y\"]");
    let alone = gear("g 2 [c 5 \"abcde\" l \"y\"]");
    for num in [0i64, 7, 13, 40, -9] {
        let fb = run(&both, num, 10);
        let fa = run(&alone, num, 10);
        assert_eq!(fb.entries.len(), 2);
        assert_eq!(fb.entries[1], fa.entries[0]);
    }
}

#[test]
fn meshed_gear_is_driven_by_minus_own_rotation() {
    // genesis of 1 tooth turns by -r; the meshed counter of 1 tooth by -r too
    let g = gear("g 1 [c 1 \"abcd\"]");
    let f = run(&g, 1, 4);
    // -1/4 brought into [0, 1) is 3/4: index 3
    assert_eq!(pairs(&f), one("", "d"));
}

#[test]
fn counter_symbol_repeats_each_revolution() {
    let g = gear("c 1 \"abcd\"");
    for num in [-23i64, -3, 0, 3, 7, 9] {
        let a = run(&g, num, 10);
        let b = run(&g, num - 10, 10);
        let c = run(&g, num + 20, 10);
        assert_eq!(a.entries, b.entries);
        assert_eq!(a.entries, c.entries);
    }
}

#[test]
fn ender_stays_fired_further_on() {
    let g = gear("e 2");
    assert!(!run(&g, 199, 100).stop);
    for num in [200i64, 201, 500, 10_000] {
        assert!(run(&g, num, 100).stop);
        assert!(run(&g, -num, 100).stop);
    }
}

#[test]
fn same_drive_gives_same_frame() {
    let g = gear("c 1 \"ab\" l \"b\" c 1 \"xy\" l \"a\" c 3 \"pqr\" g 1 [c 2 \"mn\" l \"a\"]");
    let f1 = run(&g, 3, 10);
    let f2 = run(&g, 3, 10);
    assert_eq!(f1.entries, f2.entries);
    assert_eq!(f1.stop, f2.stop);
    let labels: Vec<String> = f1.entries.iter().map(|e| e.0.clone()).collect();
    assert_eq!(labels, vec!["".to_string(), "a".to_string(), "b".to_string()]);
}

#[test]
fn same_label_concatenates_in_visiting_order() {
    // genesis counter turns by -0.3 (index 1 of 2), its follower by 0.3 (index 0 of 2)
    let g = gear("c 1 \"ab\" l \"k\" c 1 \"xy\" l \"k\"");
    let f = run(&g, 3, 10);
    assert_eq!(pairs(&f), one("k", "bx"));
    assert_eq!(render(&f.entries), vec!["kbx".to_string()]);
}

#[test]
fn symbol_index_exact_values() {
    assert_eq!(select(&Rot { num: 0, den: 1 }, 4), 0);
    assert_eq!(select(&Rot { num: 1, den: 4 }, 4), 1);
    assert_eq!(select(&Rot { num: -1, den: 16 }, 4), 3);
    assert_eq!(select(&Rot { num: -4, den: 4 }, 4), 0);
    assert_eq!(select(&Rot { num: 7, den: 3 }, 3), 1);
}

#[test]
fn comments_and_whitespace_are_ignored() {
    let g = gear("; a train\n  c 2 { \"a\" ,\t\"b\" } ; counter\n l \"n\"\n");
    let f = run(&g, 0, 1);
    assert_eq!(pairs(&f), one("n", "a"));
}

#[test]
fn escapes_in_strings() {
    let g = gear("c 1 \"\\\"q\" l \"\\\\\"");
    let f = run(&g, 1, 4);
    // -1/4 -> 3/4 of two symbols: index 1
    assert_eq!(pairs(&f), one("\\", "q"));
    let s = "\"a\\\"b\" rest";
    let (t, e) = parse_string(s, s.chars().count(), 0).unwrap();
    assert_eq!(t, "a\"b");
    assert_eq!(e, 6);
}

#[test]
fn multi_character_symbols() {
    let g = gear("c 1 {\"ab\", \"cd\"}");
    assert_eq!(pairs(&run(&g, 1, 4)), one("", "cd"));
}

#[test]
fn numbers_and_whitespace() {
    let s = "123x";
    assert_eq!(parse_number(s, 4, 0).unwrap(), (123, 3));
    let s = "4294967295";
    assert_eq!(parse_number(s, 10, 0).unwrap(), (4294967295, 10));
    let s = "4294967296";
    assert!(parse_number(s, 10, 0).is_err());
    let s = "  ; note\n\tg";
    assert_eq!(skip_ws(s, s.chars().count(), 0), 10);
}

#[test]
fn each_error_kind() {
    assert_eq!(error_of("x 1"), (0, Expected::Gear));
    assert_eq!(error_of(""), (0, Expected::Gear));
    assert_eq!(error_of("g x"), (2, Expected::Number));
    assert_eq!(error_of("g 0"), (2, Expected::NonZeroTeeth));
    assert_eq!(error_of("c 1 x"), (4, Expected::Symbols));
    assert_eq!(error_of("c 1 \"\""), (4, Expected::NonEmptySymbols));
    assert_eq!(error_of("c 1 {x}"), (5, Expected::Str));
    assert_eq!(error_of("c 1 \"a\" l x"), (10, Expected::Str));
    assert_eq!(error_of("c 1 {\"a\" \"b\"}"), (9, Expected::CommaOrBrace));
    assert_eq!(error_of("g 1 [e 1"), (8, Expected::CommaOrBracket));
    assert_eq!(error_of("e 1 e 1"), (4, Expected::End));
    assert_eq!(error_of("c 1 {\"a"), (5, Expected::ClosingQuote));
}

#[test]
fn whole_train_parses() {
    let g = gear("g 10 [c 5 \"abcde\" l \"p\", e 7] c 2 {\"x\",\"y\"} l \"q\" e 20");
    match &g {
        Gear::Rotator(n) => {
            assert_eq!(n.n, 10);
            assert_eq!(n.parrarel.len(), 2);
            assert!(n.child.is_some());
        }
        _ => panic!("expected a rotator"),
    }
    let f = run(&g, 0, 1);
    assert!(!f.stop);
    assert_eq!(f.entries.len(), 2);
}

#[test]
fn advance_adds_and_detects_overflow() {
    let d = advance(&Drive { num: 5, den: 100 }, 7).unwrap();
    assert_eq!((d.num, d.den), (12, 100));
    assert!(advance(&Drive { num: i64::MAX, den: 1 }, 1).is_none());
    assert!(advance(&Drive { num: i64::MIN, den: 1 }, -1).is_none());
}

#[test]
fn parsed_tree_holds_what_the_text_writes() {
    let g = gear("c 7 {\"ab\", \"c\"} l \"lbl\" g 3 [e 9, c 2 \"xy\"] e 11");
    match &g {
        Gear::Counter(c) => {
            assert_eq!(c.n, 7);
            assert_eq!(c.label.as_deref(), Some("lbl"));
            assert_eq!(c.symbols, vec!["ab".to_string(), "c".to_string()]);
            match c.child.as_deref() {
                Some(Gear::Rotator(r)) => {
                    assert_eq!(r.n, 3);
                    assert_eq!(r.parrarel.len(), 2);
                    assert!(matches!(&r.parrarel[0], Gear::Ender(e) if e.n == 9));
                    match &r.parrarel[1] {
                        Gear::Counter(m) => {
                            assert_eq!(m.symbols, vec!["x".to_string(), "y".to_string()]);
                            assert!(m.label.is_none());
                        }
                        _ => panic!("expected a counter"),
                    }
                    assert!(matches!(r.child.as_deref(), Some(Gear::Ender(e)) if e.n == 11));
                }
                _ => panic!("expected a rotator"),
            }
        }
        _ => panic!("expected a counter"),
    }
}

#[test]
fn next_drive_stops_after_an_ender_fires() {
    let g = gear("e 1");
    let rot = Drive { num: 3, den: 4 };
    let f = step(&g, &rot);
    let d = gearbox::animation::next_drive(&f, &rot, 1).unwrap();
    assert_eq!((d.num, d.den), (4, 4));
    let f = step(&g, &d);
    assert!(f.stop);
    assert!(gearbox::animation::next_drive(&f, &d, 1).is_none());
}
