use keyboard_config::model::{Behavior, Config, Key, Layer, Options, COLS, KEYS, NUM_LAYERS, ROWS};
use keyboard_config::parser::{
    compile, parse_behavior, parse_config, parse_layers, parse_options, ConfigError, RichBehavior,
};
use keyboard_config::scanner::{scan_input, ScanToken};

fn layer_text(name: &str, group: &str, count: usize) -> String {
    let mut s = format!("{}: [", name);
    s.push_str(vec![group; count].join(" ").as_str());
    s.push_str("],");
    s
}

fn document(layers: &[String]) -> String {
    let mut s = "options: {tapping_term_ms: 150,}; layers: {".to_owned();
    for l in layers {
        s.push_str(l);
    }
    s.push_str("};");
    s
}

#[test]
fn test_parse_behavior() {
    let e1 = RichBehavior {
        base: Behavior::Transparent,
        layer_name: None,
    };
    let e2 = RichBehavior {
        base: Behavior::MomentaryLayer(0),
        layer_name: Some("TestLayer".to_owned()),
    };
    let e3 = RichBehavior {
        base: Behavior::Key(Key::B),
        layer_name: None,
    };

    let t1 = scan_input("t".as_bytes());
    let t2 = scan_input("ml TestLayer".as_bytes());
    let t3 = scan_input("kp B".as_bytes());

    assert_eq!(Ok(e1), parse_behavior(&t1, 0).map(|(b, _)| b));
    assert_eq!(Ok(e2), parse_behavior(&t2, 0).map(|(b, _)| b));
    assert_eq!(Ok(e3), parse_behavior(&t3, 0).map(|(b, _)| b));
}

#[test]
fn test_parse_options() {
    let e1 = Options {
        tapping_term_ms: Some(150),
    };

    let s1 = ": {
            tapping_term_ms: 150,
        };";

    let t1 = scan_input(s1.as_bytes());

    assert_eq!(Ok(e1), parse_options(&t1, 0).map(|(o, _)| o));
}

#[test]
fn test_parse_layers() {
    let e1 = [
        Some(Layer {
            id: 0,
            keys: [Behavior::Key(Key::BKSP); ROWS * COLS],
        }),
        Some(Layer {
            id: 1,
            keys: [Behavior::MomentaryLayer(2); ROWS * COLS],
        }),
        Some(Layer {
            id: 2,
            keys: [Behavior::Transparent; ROWS * COLS],
        }),
        None,
        None,
        None,
        None,
        None,
        None,
        None,
    ];

    let mut s1 = ": { BASE: [".to_owned();
    s1.push_str(["(kp BKSP)"; ROWS * COLS].join(" ").as_str());
    s1.push_str("], RAISE: [");

    s1.push_str(["(ml LOWER)"; ROWS * COLS].join(" ").as_str());
    s1.push_str("], LOWER: [");

    s1.push_str(["(t)"; ROWS * COLS].join(" ").as_str());
    s1.push_str("],};");

    let t1 = scan_input(s1.as_bytes());

    assert_eq!(Ok(e1), parse_layers(&t1, 0).map(|(l, _)| l));
}

#[test]
fn test_parse_config() {
    let mut behaviors: [Behavior; KEYS] = [Behavior::NoOp; KEYS];
    behaviors[0] = Behavior::Transparent;
    behaviors[6] = Behavior::HoldTap(Key::A, Key::LCTL);
    behaviors[12] = Behavior::Key(Key::B);

    let e1 = Config {
        options: Options {
            tapping_term_ms: Some(100),
        },
        layers: [
            Some(Layer {
                id: 0,
                keys: behaviors,
            }),
            None,
            None,
            None,
            None,
            None,
            None,
            None,
            None,
            None,
        ],
    };

    let s1 = "options: {tapping_term_ms: 100,}; layers: {BASE: [
                    (t)         (n)(n)(n)(n)(n)
                    (ht A LCTL) (n)(n)(n)(n)(n)
                    (kp B)      (n)(n)(n)(n)(n)
                    (n)         (n)(n)(n)(n)(n)],
                };";
    let t1 = scan_input(s1.as_bytes());

    let c1 = parse_config(&t1);

    assert_eq!(c1, Ok(e1));
}

#[test]
fn compile_is_deterministic() {
    let doc = document(&[
        layer_text("BASE", "(kp A)", KEYS),
        layer_text("FN", "(ml BASE)", KEYS),
    ]);
    let a = compile(doc.as_bytes());
    let b = compile(doc.as_bytes());
    assert!(a.is_ok());
    assert_eq!(a, b);
}

#[test]
fn all_noop_layer_parses_to_noops() {
    let doc = document(&[layer_text("EMPTY", "(n)", KEYS)]);
    let c = compile(doc.as_bytes()).unwrap();
    let l = c.layers[0].unwrap();
    assert!(l.keys.iter().all(|b| *b == Behavior::NoOp));
    assert!(c.layers[1..].iter().all(|s| s.is_none()));
}

#[test]
fn ids_follow_declaration_order() {
    let doc = document(&[
        layer_text("ZED", "(kp Z)", KEYS),
        layer_text("ALPHA", "(kp A)", KEYS),
        layer_text("MID", "(kp M)", KEYS),
    ]);
    let c = compile(doc.as_bytes()).unwrap();
    assert_eq!(c.layers[0].unwrap().id, 0);
    assert_eq!(c.layers[0].unwrap().keys[0], Behavior::Key(Key::Z));
    assert_eq!(c.layers[1].unwrap().id, 1);
    assert_eq!(c.layers[1].unwrap().keys[0], Behavior::Key(Key::A));
    assert_eq!(c.layers[2].unwrap().id, 2);
    assert_eq!(c.layers[2].unwrap().keys[0], Behavior::Key(Key::M));
    assert!(c.layers[3].is_none());
}

#[test]
fn forward_reference_resolves() {
    let doc = document(&[
        layer_text("A", "(ml B)", KEYS),
        layer_text("C", "(t)", KEYS),
        layer_text("B", "(ml A)", KEYS),
    ]);
    let c = compile(doc.as_bytes()).unwrap();
    assert_eq!(c.layers[0].unwrap().keys[5], Behavior::MomentaryLayer(2));
    assert_eq!(c.layers[2].unwrap().keys[0], Behavior::MomentaryLayer(0));
}

#[test]
fn ten_layers_succeed() {
    let layers: Vec<String> = (0..NUM_LAYERS).map(|i| layer_text(&format!("L{}", i), "(n)", KEYS)).collect();
    let c = compile(document(&layers).as_bytes()).unwrap();
    for i in 0..NUM_LAYERS {
        assert_eq!(c.layers[i].unwrap().id, i as u32);
    }
}

#[test]
fn eleven_layers_fail() {
    let layers: Vec<String> = (0..NUM_LAYERS + 1).map(|i| layer_text(&format!("L{}", i), "(n)", KEYS)).collect();
    assert_eq!(
        compile(document(&layers).as_bytes()),
        Err(ConfigError::TooManyLayers { count: 11 })
    );
}

#[test]
fn eleven_layers_with_bad_terminator_fail_on_block() {
    let layers: Vec<String> = (0..NUM_LAYERS + 1).map(|i| layer_text(&format!("L{}", i), "(n)", KEYS)).collect();
    let mut doc = document(&layers);
    doc.pop();
    assert_eq!(compile(doc.as_bytes()), Err(ConfigError::UnexpectedEnd));
}

#[test]
fn one_group_too_few_fails() {
    let doc = document(&[layer_text("BASE", "(n)", KEYS - 1)]);
    let toks = scan_input(doc.as_bytes());
    // 15 tokens before the first `(`; 3 per group; the `]` stands where the last `(` should.
    let at = 15 + 3 * (KEYS - 1);
    assert_eq!(parse_config(&toks), Err(ConfigError::UnexpectedToken { pos: at }));
}

#[test]
fn one_group_too_many_fails() {
    let doc = document(&[layer_text("BASE", "(n)", KEYS + 1)]);
    let toks = scan_input(doc.as_bytes());
    let at = 15 + 3 * KEYS;
    assert_eq!(parse_config(&toks), Err(ConfigError::UnexpectedToken { pos: at }));
}

#[test]
fn first_key_a_rest_noop() {
    let mut s = "options: {tapping_term_ms: 150,}; layers: {BASE: [(kp A)".to_owned();
    for _ in 1..24 {
        s.push_str("(n)");
    }
    s.push_str("],};");
    let c = compile(s.as_bytes()).unwrap();
    assert_eq!(c.options, Options { tapping_term_ms: Some(150) });
    let l = c.layers[0].unwrap();
    assert_eq!(l.id, 0);
    assert_eq!(l.keys[0], Behavior::Key(Key::A));
    assert!(l.keys[1..].iter().all(|b| *b == Behavior::NoOp));
    assert!(c.layers[1].is_none());
}

#[test]
fn behavior_forms() {
    let t = scan_input("ht A LCTL".as_bytes());
    assert_eq!(
        parse_behavior(&t, 0),
        Ok((RichBehavior { base: Behavior::HoldTap(Key::A, Key::LCTL), layer_name: None }, 3))
    );
    let t = scan_input("kp B".as_bytes());
    assert_eq!(
        parse_behavior(&t, 0),
        Ok((RichBehavior { base: Behavior::Key(Key::B), layer_name: None }, 2))
    );
    let t = scan_input("t".as_bytes());
    assert_eq!(
        parse_behavior(&t, 0),
        Ok((RichBehavior { base: Behavior::Transparent, layer_name: None }, 1))
    );
    let t = scan_input("n".as_bytes());
    assert_eq!(
        parse_behavior(&t, 0),
        Ok((RichBehavior { base: Behavior::NoOp, layer_name: None }, 1))
    );
}

#[test]
fn unknown_key_fails() {
    let t = scan_input("kp ZZ9".as_bytes());
    assert_eq!(parse_behavior(&t, 0), Err(ConfigError::UnknownKey { pos: 1 }));
    let doc = document(&[layer_text("BASE", "(kp ZZ9)", KEYS)]);
    assert_eq!(compile(doc.as_bytes()), Err(ConfigError::UnknownKey { pos: 17 }));
}

#[test]
fn unknown_behavior_fails() {
    let t = scan_input("xy".as_bytes());
    assert_eq!(parse_behavior(&t, 0), Err(ConfigError::UnknownBehavior { pos: 0 }));
    let doc = document(&[layer_text("BASE", "(xy)", KEYS)]);
    assert_eq!(compile(doc.as_bytes()), Err(ConfigError::UnknownBehavior { pos: 16 }));
}

#[test]
fn wrong_behavior_arguments_fail() {
    let t = scan_input("kp 7".as_bytes());
    assert_eq!(parse_behavior(&t, 0), Err(ConfigError::UnexpectedToken { pos: 1 }));
    let t = scan_input("ht A".as_bytes());
    assert_eq!(parse_behavior(&t, 0), Err(ConfigError::UnexpectedEnd));
    let t = scan_input("ml".as_bytes());
    assert_eq!(parse_behavior(&t, 0), Err(ConfigError::UnexpectedEnd));
}

#[test]
fn undefined_layer_fails() {
    let mut body = vec!["(n)"; KEYS];
    body[3] = "(ml NOPE)";
    let doc = format!(
        "options: {{tapping_term_ms: 1,}}; layers: {{BASE: [{}],}};",
        body.join("")
    );
    assert_eq!(
        compile(doc.as_bytes()),
        Err(ConfigError::UndefinedLayer { layer: 0, key: 3 })
    );
}

#[test]
fn duplicate_layer_fails() {
    let doc = document(&[layer_text("BASE", "(n)", KEYS), layer_text("BASE", "(t)", KEYS)]);
    let first_len = 3 + 3 * KEYS + 2;
    assert_eq!(
        compile(doc.as_bytes()),
        Err(ConfigError::DuplicateLayer { pos: 12 + first_len })
    );
}

#[test]
fn wrong_option_key_fails() {
    let t = scan_input(": { tapping: 150, };".as_bytes());
    assert_eq!(parse_options(&t, 0), Err(ConfigError::UnexpectedToken { pos: 2 }));
}

#[test]
fn options_report_end_position() {
    let t = scan_input(": { tapping_term_ms: 7, }; rest".as_bytes());
    assert_eq!(parse_options(&t, 0), Ok((Options { tapping_term_ms: Some(7) }, 8)));
}

#[test]
fn underscore_is_noop() {
    let t = vec![ScanToken::Ident("_".to_owned())];
    assert_eq!(
        parse_behavior(&t, 0),
        Ok((RichBehavior { base: Behavior::NoOp, layer_name: None }, 1))
    );
}

#[test]
fn missing_options_keyword_fails() {
    let t = scan_input("layers: {};".as_bytes());
    assert_eq!(parse_config(&t), Err(ConfigError::UnexpectedToken { pos: 0 }));
    assert_eq!(parse_config(&[]), Err(ConfigError::UnexpectedEnd));
}

#[test]
fn empty_layer_block_gives_no_layers() {
    let c = compile("options: {tapping_term_ms: 4294967296,}; layers: {};".as_bytes()).unwrap();
    assert_eq!(c.options.tapping_term_ms, Some(u32::MAX));
    assert!(c.layers.iter().all(|l| l.is_none()));
}
