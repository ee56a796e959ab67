use vstd::prelude::*;

use crate::model::{
    key_named, slots_of, slots_view, slots_wf, text_is, Behavior, Config, ConfigView, Key, Layer, Options,
    KEYS, NUM_LAYERS,
};
use crate::scanner::{scan_input, scan_spec, token_views, Bracket, BracketType, ScanToken, TokenView};

verus! {

/// Why a document failed to compile. Positions index the token sequence.
#[derive(Debug, Clone, Copy, PartialEq, Eq, Structural)]
pub enum ConfigError {
    /// The token at `pos` is not what the grammar expects there.
    UnexpectedToken { pos: usize },
    /// The tokens ran out where the grammar expects more.
    UnexpectedEnd,
    /// The behavior identifier at `pos` is not a known behavior.
    UnknownBehavior { pos: usize },
    /// The key name at `pos` is not a supported key.
    UnknownKey { pos: usize },
    /// The layer name at `pos` was already declared.
    DuplicateLayer { pos: usize },
    /// More than `NUM_LAYERS` layers were declared: `count` of them.
    TooManyLayers { count: usize },
    /// Key position `key` of the layer declared `layer`-th names an undeclared layer.
    UndefinedLayer { layer: usize, key: usize },
}

/// A parsed behavior whose layer reference, if any, is still a name.
#[derive(Debug, PartialEq, Eq)]
pub struct RichBehavior {
    pub base: Behavior,
    pub layer_name: Option<String>,
}

/// The content of a `RichBehavior`.
pub struct RichView {
    pub base: Behavior,
    pub layer_name: Option<Seq<char>>,
}

impl View for RichBehavior {
    type V = RichView;

    open spec fn view(&self) -> RichView {
        RichView {
            base: self.base,
            layer_name: match self.layer_name {
                Some(n) => Some(n@),
                None => None,
            },
        }
    }
}

/// A parsed layer before its layer references are resolved.
pub struct RichLayer {
    pub id: usize,
    pub behaviors: Vec<RichBehavior>,
}

pub open spec fn bracket_token(right: bool, ty: BracketType) -> TokenView {
    TokenView::Bracket(Bracket { right, ty })
}

/// `Ok(pos + 1)` when the token at `pos` is `want`.
pub open spec fn expect_at(ts: Seq<TokenView>, pos: int, want: TokenView) -> Result<int, ConfigError> {
    if pos >= ts.len() {
        Err(ConfigError::UnexpectedEnd)
    } else if ts[pos] == want {
        Ok(pos + 1)
    } else {
        Err(ConfigError::UnexpectedToken { pos: pos as usize })
    }
}

/// The tokens from `pos` on start with `want`; the first mismatch is the error.
pub open spec fn expect_run(ts: Seq<TokenView>, pos: int, want: Seq<TokenView>) -> Result<int, ConfigError>
    decreases want.len(),
{
    if want.len() == 0 {
        Ok(pos)
    } else {
        match expect_at(ts, pos, want[0]) {
            Ok(p) => expect_run(ts, p, want.drop_first()),
            Err(e) => Err(e),
        }
    }
}

pub open spec fn options_head() -> Seq<TokenView> {
    seq![
        TokenView::Colon,
        bracket_token(false, BracketType::Curly),
        TokenView::Ident("tapping_term_ms"@),
        TokenView::Colon,
    ]
}

pub open spec fn options_tail() -> Seq<TokenView> {
    seq![TokenView::Comma, bracket_token(true, BracketType::Curly), TokenView::Semicolon]
}

/// `: { tapping_term_ms : <int> , } ;` from `pos`.
pub open spec fn options_spec(ts: Seq<TokenView>, pos: int) -> Result<(Options, int), ConfigError> {
    match expect_run(ts, pos, options_head()) {
        Err(e) => Err(e),
        Ok(p) => if p >= ts.len() {
            Err(ConfigError::UnexpectedEnd)
        } else {
            match ts[p] {
                TokenView::Int(v) => match expect_run(ts, p + 1, options_tail()) {
                    Ok(q) => Ok((Options { tapping_term_ms: Some(v) }, q)),
                    Err(e) => Err(e),
                },
                _ => Err(ConfigError::UnexpectedToken { pos: p as usize }),
            }
        },
    }
}

/// The key named by the identifier at `p`.
pub open spec fn key_arg(ts: Seq<TokenView>, p: int) -> Result<Key, ConfigError> {
    if p >= ts.len() {
        Err(ConfigError::UnexpectedEnd)
    } else {
        match ts[p] {
            TokenView::Ident(n) => match key_named(n) {
                Some(k) => Ok(k),
                None => Err(ConfigError::UnknownKey { pos: p as usize }),
            },
            _ => Err(ConfigError::UnexpectedToken { pos: p as usize }),
        }
    }
}

pub open spec fn plain(b: Behavior) -> RichView {
    RichView { base: b, layer_name: None }
}

/// The behavior that starts at `pos`, inside its parentheses.
pub open spec fn behavior_spec(ts: Seq<TokenView>, pos: int) -> Result<(RichView, int), ConfigError> {
    if pos >= ts.len() {
        Err(ConfigError::UnexpectedEnd)
    } else {
        match ts[pos] {
            TokenView::Ident(name) => if name == "kp"@ {
                match key_arg(ts, pos + 1) {
                    Ok(k) => Ok((plain(Behavior::Key(k)), pos + 2)),
                    Err(e) => Err(e),
                }
            } else if name == "ml"@ {
                if pos + 1 >= ts.len() {
                    Err(ConfigError::UnexpectedEnd)
                } else {
                    match ts[pos + 1] {
                        TokenView::Ident(l) => Ok(
                            (RichView { base: Behavior::MomentaryLayer(0), layer_name: Some(l) }, pos + 2),
                        ),
                        _ => Err(ConfigError::UnexpectedToken { pos: (pos + 1) as usize }),
                    }
                }
            } else if name == "ht"@ {
                match key_arg(ts, pos + 1) {
                    Ok(h) => match key_arg(ts, pos + 2) {
                        Ok(t) => Ok((plain(Behavior::HoldTap(h, t)), pos + 3)),
                        Err(e) => Err(e),
                    },
                    Err(e) => Err(e),
                }
            } else if name == "t"@ {
                Ok((plain(Behavior::Transparent), pos + 1))
            } else if name == "n"@ || name == "_"@ {
                Ok((plain(Behavior::NoOp), pos + 1))
            } else {
                Err(ConfigError::UnknownBehavior { pos: pos as usize })
            },
            _ => Err(ConfigError::UnexpectedToken { pos: pos as usize }),
        }
    }
}

/// `( <behavior> )` from `pos`.
pub open spec fn group_spec(ts: Seq<TokenView>, pos: int) -> Result<(RichView, int), ConfigError> {
    match expect_at(ts, pos, bracket_token(false, BracketType::Paren)) {
        Ok(p) => match behavior_spec(ts, p) {
            Ok((b, q)) => match expect_at(ts, q, bracket_token(true, BracketType::Paren)) {
                Ok(r) => Ok((b, r)),
                Err(e) => Err(e),
            },
            Err(e) => Err(e),
        },
        Err(e) => Err(e),
    }
}

/// `n` groups in a row from `pos`.
pub open spec fn groups_spec(ts: Seq<TokenView>, pos: int, n: nat) -> Result<(Seq<RichView>, int), ConfigError>
    decreases n,
{
    if n == 0 {
        Ok((Seq::empty(), pos))
    } else {
        match groups_spec(ts, pos, (n - 1) as nat) {
            Ok((acc, p)) => match group_spec(ts, p) {
                Ok((b, q)) => Ok((acc.push(b), q)),
                Err(e) => Err(e),
            },
            Err(e) => Err(e),
        }
    }
}

/// `: [ <group> * KEYS ] ,` from `pos`, just past a layer's name.
pub open spec fn layer_spec(ts: Seq<TokenView>, pos: int) -> Result<(Seq<RichView>, int), ConfigError> {
    match expect_run(ts, pos, seq![TokenView::Colon, bracket_token(false, BracketType::Square)]) {
        Ok(p) => match groups_spec(ts, p, KEYS as nat) {
            Ok((bs, q)) => match expect_run(
                ts,
                q,
                seq![bracket_token(true, BracketType::Square), TokenView::Comma],
            ) {
                Ok(r) => Ok((bs, r)),
                Err(e) => Err(e),
            },
            Err(e) => Err(e),
        },
        Err(e) => Err(e),
    }
}

pub proof fn lemma_expect_run_advances(ts: Seq<TokenView>, pos: int, want: Seq<TokenView>)
    ensures
        expect_run(ts, pos, want) is Ok ==> expect_run(ts, pos, want)->Ok_0 == pos + want.len(),
        expect_run(ts, pos, want) is Ok && want.len() > 0 ==> expect_run(ts, pos, want)->Ok_0
            <= ts.len(),
    decreases want.len(),
{
    if want.len() > 0 {
        lemma_expect_run_advances(ts, pos + 1, want.drop_first());
    }
}

pub proof fn lemma_groups_advance(ts: Seq<TokenView>, pos: int, n: nat)
    ensures
        groups_spec(ts, pos, n) is Ok ==> groups_spec(ts, pos, n)->Ok_0.1 >= pos,
        groups_spec(ts, pos, n) is Ok ==> groups_spec(ts, pos, n)->Ok_0.0.len() == n,
    decreases n,
{
    if n > 0 {
        lemma_groups_advance(ts, pos, (n - 1) as nat);
    }
}

pub proof fn lemma_layer_advances(ts: Seq<TokenView>, pos: int)
    ensures
        layer_spec(ts, pos) is Ok ==> layer_spec(ts, pos)->Ok_0.1 > pos,
        layer_spec(ts, pos) is Ok ==> layer_spec(ts, pos)->Ok_0.1 <= ts.len(),
        layer_spec(ts, pos) is Ok ==> layer_spec(ts, pos)->Ok_0.0.len() == KEYS,
{
    let head = seq![TokenView::Colon, bracket_token(false, BracketType::Square)];
    lemma_expect_run_advances(ts, pos, head);
    if expect_run(ts, pos, head) is Ok {
        let p = expect_run(ts, pos, head)->Ok_0;
        lemma_groups_advance(ts, p, KEYS as nat);
        if groups_spec(ts, p, KEYS as nat) is Ok {
            let q = groups_spec(ts, p, KEYS as nat)->Ok_0.1;
            lemma_expect_run_advances(
                ts,
                q,
                seq![bracket_token(true, BracketType::Square), TokenView::Comma],
            );
        }
    }
}

#[via_fn]
proof fn layer_list_decreases(ts: Seq<TokenView>, pos: int, seen: Seq<Seq<char>>) {
    lemma_layer_advances(ts, pos + 1);
}

/// A declared layer: its name and its unresolved behaviors.
pub type Decl = (Seq<char>, Seq<RichView>);

/// Layer declarations from `pos` up to and including the closing `}`;
/// `seen` holds the names declared before `pos`.
pub open spec fn layer_list(ts: Seq<TokenView>, pos: int, seen: Seq<Seq<char>>) -> Result<(Seq<Decl>, int), ConfigError>
    decreases ts.len() - pos,
    via layer_list_decreases
{
    if pos < 0 || pos >= ts.len() {
        Err(ConfigError::UnexpectedEnd)
    } else {
        match ts[pos] {
            TokenView::Ident(name) => if seen.contains(name) {
                Err(ConfigError::DuplicateLayer { pos: pos as usize })
            } else {
                match layer_spec(ts, pos + 1) {
                    Ok((bs, p)) => match layer_list(ts, p, seen.push(name)) {
                        Ok((rest, q)) => Ok((seq![(name, bs)] + rest, q)),
                        Err(e) => Err(e),
                    },
                    Err(e) => Err(e),
                }
            },
            TokenView::Bracket(b) => if b == (Bracket { right: true, ty: BracketType::Curly }) {
                Ok((Seq::empty(), pos + 1))
            } else {
                Err(ConfigError::UnexpectedToken { pos: pos as usize })
            },
            _ => Err(ConfigError::UnexpectedToken { pos: pos as usize }),
        }
    }
}

/// The first index at or after `i` where `names` holds `n`.
pub open spec fn index_from(names: Seq<Seq<char>>, n: Seq<char>, i: int) -> Option<int>
    decreases names.len() - i,
{
    if i < 0 || i >= names.len() {
        None
    } else if names[i] == n {
        Some(i)
    } else {
        index_from(names, n, i + 1)
    }
}

/// The final behavior, with a layer name replaced by that layer's id.
pub open spec fn resolve_one(b: RichView, names: Seq<Seq<char>>) -> Option<Behavior> {
    match b.layer_name {
        Some(n) => match index_from(names, n, 0) {
            Some(i) => Some(Behavior::MomentaryLayer(i as u32)),
            None => None,
        },
        None => Some(b.base),
    }
}

/// The resolved behaviors of one layer, or the first position that fails.
pub open spec fn resolve_layer(bs: Seq<RichView>, names: Seq<Seq<char>>) -> Result<Seq<Behavior>, int>
    decreases bs.len(),
{
    if bs.len() == 0 {
        Ok(Seq::empty())
    } else {
        match resolve_layer(bs.drop_last(), names) {
            Ok(acc) => match resolve_one(bs.last(), names) {
                Some(b) => Ok(acc.push(b)),
                None => Err(bs.len() - 1),
            },
            Err(k) => Err(k),
        }
    }
}

/// The resolved behaviors of every layer, or the first failure.
pub open spec fn resolve_all(layers: Seq<Seq<RichView>>, names: Seq<Seq<char>>) -> Result<Seq<Seq<Behavior>>, ConfigError>
    decreases layers.len(),
{
    if layers.len() == 0 {
        Ok(Seq::empty())
    } else {
        match resolve_all(layers.drop_last(), names) {
            Ok(acc) => match resolve_layer(layers.last(), names) {
                Ok(l) => Ok(acc.push(l)),
                Err(k) => Err(
                    ConfigError::UndefinedLayer { layer: (layers.len() - 1) as usize, key: k as usize },
                ),
            },
            Err(e) => Err(e),
        }
    }
}

pub open spec fn decl_names(ds: Seq<Decl>) -> Seq<Seq<char>> {
    ds.map_values(|d: Decl| d.0)
}

pub open spec fn decl_bodies(ds: Seq<Decl>) -> Seq<Seq<RichView>> {
    ds.map_values(|d: Decl| d.1)
}

/// `: { <layer>* } ;` from `pos`, then the count check and resolution.
pub open spec fn layers_spec(ts: Seq<TokenView>, pos: int) -> Result<(Seq<Seq<Behavior>>, int), ConfigError> {
    match expect_run(ts, pos, seq![TokenView::Colon, bracket_token(false, BracketType::Curly)]) {
        Ok(p) => match layer_list(ts, p, Seq::empty()) {
            Ok((ds, q)) => match expect_at(ts, q, TokenView::Semicolon) {
                Ok(r) => if ds.len() > NUM_LAYERS {
                    Err(ConfigError::TooManyLayers { count: ds.len() as usize })
                } else {
                    match resolve_all(decl_bodies(ds), decl_names(ds)) {
                        Ok(ls) => Ok((ls, r)),
                        Err(e) => Err(e),
                    }
                },
                Err(e) => Err(e),
            },
            Err(e) => Err(e),
        },
        Err(e) => Err(e),
    }
}

/// A whole document: `options ...; layers ...;`, as options and layers.
pub open spec fn config_spec(ts: Seq<TokenView>) -> Result<(Options, Seq<Seq<Behavior>>), ConfigError> {
    match expect_at(ts, 0, TokenView::Ident("options"@)) {
        Ok(p) => match options_spec(ts, p) {
            Ok((o, q)) => match expect_at(ts, q, TokenView::Ident("layers"@)) {
                Ok(r) => match layers_spec(ts, r) {
                    Ok((ls, _)) => Ok((o, ls)),
                    Err(e) => Err(e),
                },
                Err(e) => Err(e),
            },
            Err(e) => Err(e),
        },
        Err(e) => Err(e),
    }
}

/// The view of the configuration that `options` and `layers` make.
pub open spec fn config_view(options: Options, layers: Seq<Seq<Behavior>>) -> ConfigView {
    ConfigView { options, slots: slots_of(layers) }
}

/// `r` is the executable form of the spec result `s`.
pub open spec fn agrees<A>(r: Result<(A, usize), ConfigError>, s: Result<(A, int), ConfigError>) -> bool {
    match r {
        Ok((a, p)) => s == Ok::<(A, int), ConfigError>((a, p as int)),
        Err(e) => s == Err::<(A, int), ConfigError>(e),
    }
}

pub open spec fn pos_agrees(r: Result<usize, ConfigError>, s: Result<int, ConfigError>) -> bool {
    match r {
        Ok(p) => s == Ok::<int, ConfigError>(p as int),
        Err(e) => s == Err::<int, ConfigError>(e),
    }
}

/// Whether two tokens are the same token.
fn token_matches(t: &ScanToken, want: &ScanToken) -> (r: bool)
    ensures
        r == (t@ == want@),
{
    match (t, want) {
        (ScanToken::Ident(a), ScanToken::Ident(b)) => text_is(a.as_str(), b.as_str()),
        (ScanToken::Int(a), ScanToken::Int(b)) => *a == *b,
        (ScanToken::Comma, ScanToken::Comma) => true,
        (ScanToken::Colon, ScanToken::Colon) => true,
        (ScanToken::Semicolon, ScanToken::Semicolon) => true,
        (ScanToken::Bracket(a), ScanToken::Bracket(b)) => *a == *b,
        _ => false,
    }
}

/// Checks that the token at `pos` is `want` and steps past it.
fn expect(tokens: &[ScanToken], pos: usize, want: &ScanToken) -> (r: Result<usize, ConfigError>)
    ensures
        pos_agrees(r, expect_at(token_views(tokens@), pos as int, want@)),
{
    if pos >= tokens.len() {
        Err(ConfigError::UnexpectedEnd)
    } else if token_matches(&tokens[pos], want) {
        Ok(pos + 1)
    } else {
        Err(ConfigError::UnexpectedToken { pos })
    }
}

/// Checks that the tokens from `pos` on start with `want` and steps past them.
fn expect_all(tokens: &[ScanToken], pos: usize, want: &[ScanToken]) -> (r: Result<usize, ConfigError>)
    requires
        pos <= tokens@.len(),
    ensures
        pos_agrees(r, expect_run(token_views(tokens@), pos as int, token_views(want@))),
{
    let ghost ts = token_views(tokens@);
    let ghost w = token_views(want@);
    let mut cur = pos;
    let mut i: usize = 0;
    assert(w.skip(0) =~= w);
    while i < want.len()
        invariant
            i <= want@.len(),
            cur <= tokens@.len(),
            ts == token_views(tokens@),
            w == token_views(want@),
            expect_run(ts, pos as int, w) == expect_run(ts, cur as int, w.skip(i as int)),
        decreases want.len() - i,
    {
        assert(w.skip(i as int).drop_first() =~= w.skip(i + 1));
        match expect(tokens, cur, &want[i]) {
            Ok(p) => {
                cur = p;
            },
            Err(e) => {
                return Err(e);
            },
        }
        i = i + 1;
    }
    assert(w.skip(i as int) =~= Seq::<TokenView>::empty());
    Ok(cur)
}

fn bracket(right: bool, ty: BracketType) -> (r: ScanToken)
    ensures
        r@ == bracket_token(right, ty),
{
    ScanToken::Bracket(Bracket { right, ty })
}

/// Parses `: { tapping_term_ms : <int> , } ;` from `pos`; returns the
/// options and the position just past them.
pub fn parse_options(tokens: &[ScanToken], pos: usize) -> (r: Result<(Options, usize), ConfigError>)
    requires
        pos <= tokens@.len(),
    ensures
        agrees(r, options_spec(token_views(tokens@), pos as int)),
{
    let ghost ts = token_views(tokens@);
    let head = vec![
        ScanToken::Colon,
        bracket(false, BracketType::Curly),
        ScanToken::Ident("tapping_term_ms".to_owned()),
        ScanToken::Colon,
    ];
    proof {
        reveal_strlit("tapping_term_ms");
    }
    assert(token_views(head@) =~= options_head());
    let p = match expect_all(tokens, pos, head.as_slice()) {
        Ok(p) => p,
        Err(e) => {
            return Err(e);
        },
    };
    if p >= tokens.len() {
        return Err(ConfigError::UnexpectedEnd);
    }
    match &tokens[p] {
        ScanToken::Int(v) => {
            let tail = vec![ScanToken::Comma, bracket(true, BracketType::Curly), ScanToken::Semicolon];
            assert(token_views(tail@) =~= options_tail());
            match expect_all(tokens, p + 1, tail.as_slice()) {
                Ok(q) => Ok((Options { tapping_term_ms: Some(*v) }, q)),
                Err(e) => Err(e),
            }
        },
        _ => Err(ConfigError::UnexpectedToken { pos: p }),
    }
}

/// Reads the key named by the identifier at `p`.
fn parse_key(tokens: &[ScanToken], p: usize) -> (r: Result<Key, ConfigError>)
    ensures
        r == key_arg(token_views(tokens@), p as int),
{
    if p >= tokens.len() {
        return Err(ConfigError::UnexpectedEnd);
    }
    match &tokens[p] {
        ScanToken::Ident(n) => match Key::from_name(n.as_str()) {
            Some(k) => Ok(k),
            None => Err(ConfigError::UnknownKey { pos: p }),
        },
        _ => Err(ConfigError::UnexpectedToken { pos: p }),
    }
}

/// Parses the behavior that starts at `pos`, inside its parentheses; a
/// momentary-layer behavior keeps the layer's name for later resolution.
pub fn parse_behavior(tokens: &[ScanToken], pos: usize) -> (r: Result<(RichBehavior, usize), ConfigError>)
    ensures
        match r {
            Ok((b, p)) => behavior_spec(token_views(tokens@), pos as int) == Ok::<(RichView, int), ConfigError>((b@, p as int)),
            Err(e) => behavior_spec(token_views(tokens@), pos as int) == Err::<(RichView, int), ConfigError>(e),
        },
{
    if pos >= tokens.len() {
        return Err(ConfigError::UnexpectedEnd);
    }
    match &tokens[pos] {
        ScanToken::Ident(name) => {
            let name = name.as_str();
            if text_is(name, "kp") {
                match parse_key(tokens, pos + 1) {
                    Ok(k) => Ok((RichBehavior { base: Behavior::Key(k), layer_name: None }, pos + 2)),
                    Err(e) => Err(e),
                }
            } else if text_is(name, "ml") {
                if pos + 1 >= tokens.len() {
                    Err(ConfigError::UnexpectedEnd)
                } else {
                    match &tokens[pos + 1] {
                        ScanToken::Ident(l) => Ok(
                            (
                                RichBehavior {
                                    base: Behavior::MomentaryLayer(0),
                                    layer_name: Some(l.clone()),
                                },
                                pos + 2,
                            ),
                        ),
                        _ => Err(ConfigError::UnexpectedToken { pos: pos + 1 }),
                    }
                }
            } else if text_is(name, "ht") {
                match parse_key(tokens, pos + 1) {
                    Ok(h) => match parse_key(tokens, pos + 2) {
                        Ok(t) => Ok((RichBehavior { base: Behavior::HoldTap(h, t), layer_name: None }, pos + 3)),
                        Err(e) => Err(e),
                    },
                    Err(e) => Err(e),
                }
            } else if text_is(name, "t") {
                Ok((RichBehavior { base: Behavior::Transparent, layer_name: None }, pos + 1))
            } else if text_is(name, "n") || text_is(name, "_") {
                Ok((RichBehavior { base: Behavior::NoOp, layer_name: None }, pos + 1))
            } else {
                Err(ConfigError::UnknownBehavior { pos })
            }
        },
        _ => Err(ConfigError::UnexpectedToken { pos }),
    }
}

pub open spec fn rich_views(bs: Seq<RichBehavior>) -> Seq<RichView> {
    bs.map_values(|b: RichBehavior| b@)
}

pub open spec fn name_views(names: Seq<String>) -> Seq<Seq<char>> {
    names.map_values(|s: String| s@)
}

proof fn lemma_groups_err(ts: Seq<TokenView>, pos: int, n: nat, m: nat)
    requires
        n <= m,
        groups_spec(ts, pos, n) is Err,
    ensures
        groups_spec(ts, pos, m) == groups_spec(ts, pos, n),
    decreases m,
{
    if m > n {
        lemma_groups_err(ts, pos, n, (m - 1) as nat);
    }
}

/// Parses `: [ <group> * KEYS ] ,` from `pos`, just past a layer's name.
fn parse_layer_body(tokens: &[ScanToken], pos: usize, id: usize) -> (r: Result<(RichLayer, usize), ConfigError>)
    requires
        pos <= tokens@.len(),
    ensures
        match r {
            Ok((l, p)) => l.id == id && layer_spec(token_views(tokens@), pos as int) == Ok::<(Seq<RichView>, int), ConfigError>((rich_views(l.behaviors@), p as int)),
            Err(e) => layer_spec(token_views(tokens@), pos as int) == Err::<(Seq<RichView>, int), ConfigError>(e),
        },
{
    let ghost ts = token_views(tokens@);
    let head = vec![ScanToken::Colon, bracket(false, BracketType::Square)];
    assert(token_views(head@) =~= seq![TokenView::Colon, bracket_token(false, BracketType::Square)]);
    let p = match expect_all(tokens, pos, head.as_slice()) {
        Ok(p) => p,
        Err(e) => {
            return Err(e);
        },
    };
    proof {
        lemma_expect_run_advances(ts, pos as int, token_views(head@));
    }
    let lparen = bracket(false, BracketType::Paren);
    let rparen = bracket(true, BracketType::Paren);
    let mut behaviors: Vec<RichBehavior> = Vec::new();
    let mut cur = p;
    let mut i: usize = 0;
    assert(rich_views(behaviors@) =~= Seq::<RichView>::empty());
    while i < KEYS
        invariant
            i <= KEYS,
            cur <= tokens@.len(),
            ts == token_views(tokens@),
            lparen@ == bracket_token(false, BracketType::Paren),
            rparen@ == bracket_token(true, BracketType::Paren),
            expect_run(ts, pos as int, seq![TokenView::Colon, bracket_token(false, BracketType::Square)]) == Ok::<int, ConfigError>(p as int),
            groups_spec(ts, p as int, i as nat) == Ok::<(Seq<RichView>, int), ConfigError>((rich_views(behaviors@), cur as int)),
        decreases KEYS - i,
    {
        let q1 = match expect(tokens, cur, &lparen) {
            Ok(q) => q,
            Err(e) => {
                proof {
                    lemma_groups_err(ts, p as int, (i + 1) as nat, KEYS as nat);
                }
                return Err(e);
            },
        };
        let (b, q2) = match parse_behavior(tokens, q1) {
            Ok(x) => x,
            Err(e) => {
                proof {
                    lemma_groups_err(ts, p as int, (i + 1) as nat, KEYS as nat);
                }
                return Err(e);
            },
        };
        let q3 = match expect(tokens, q2, &rparen) {
            Ok(q) => q,
            Err(e) => {
                proof {
                    lemma_groups_err(ts, p as int, (i + 1) as nat, KEYS as nat);
                }
                return Err(e);
            },
        };
        let ghost before = rich_views(behaviors@);
        behaviors.push(b);
        assert(rich_views(behaviors@) =~= before.push(b@));
        cur = q3;
        i = i + 1;
    }
    let tail = vec![bracket(true, BracketType::Square), ScanToken::Comma];
    assert(token_views(tail@) =~= seq![bracket_token(true, BracketType::Square), TokenView::Comma]);
    match expect_all(tokens, cur, tail.as_slice()) {
        Ok(q) => Ok((RichLayer { id, behaviors }, q)),
        Err(e) => Err(e),
    }
}

proof fn lemma_index_from(names: Seq<Seq<char>>, n: Seq<char>, i: int)
    requires
        0 <= i,
    ensures
        index_from(names, n, i) is None <==> (forall|k: int| i <= k < names.len() ==> names[k] != n),
        index_from(names, n, i) is Some ==> i <= index_from(names, n, i)->Some_0 < names.len()
            && names[index_from(names, n, i)->Some_0] == n,
    decreases names.len() - i,
{
    if i < names.len() && names[i] != n {
        lemma_index_from(names, n, i + 1);
    }
}

/// The id of the first layer named `name`, if one is.
fn find_name(names: &Vec<String>, name: &str) -> (r: Option<usize>)
    ensures
        match r {
            Some(i) => index_from(name_views(names@), name@, 0) == Some(i as int),
            None => index_from(name_views(names@), name@, 0) is None,
        },
        r is Some <==> name_views(names@).contains(name@),
{
    let ghost nv = name_views(names@);
    proof {
        lemma_index_from(nv, name@, 0);
    }
    let mut i: usize = 0;
    while i < names.len()
        invariant
            i <= names@.len(),
            nv == name_views(names@),
            index_from(nv, name@, 0) == index_from(nv, name@, i as int),
        decreases names.len() - i,
    {
        if text_is(names[i].as_str(), name) {
            return Some(i);
        }
        i = i + 1;
    }
    None
}

pub open spec fn prepend(acc: Seq<Decl>, r: Result<(Seq<Decl>, int), ConfigError>) -> Result<(Seq<Decl>, int), ConfigError> {
    match r {
        Ok((rest, q)) => Ok((acc + rest, q)),
        Err(e) => Err(e),
    }
}

pub open spec fn decls_of(names: Seq<String>, layers: Seq<RichLayer>) -> Seq<Decl> {
    Seq::new(layers.len(), |i: int| (names[i]@, rich_views(layers[i].behaviors@)))
}

pub open spec fn bodies_of(layers: Seq<RichLayer>) -> Seq<Seq<RichView>> {
    layers.map_values(|l: RichLayer| rich_views(l.behaviors@))
}

proof fn lemma_prepend_step(a: Seq<Decl>, d: Decl, r: Result<(Seq<Decl>, int), ConfigError>)
    ensures
        prepend(a, prepend(seq![d], r)) == prepend(a.push(d), r),
{
    match r {
        Ok((rest, q)) => {
            assert(a + (seq![d] + rest) =~= a.push(d) + rest);
        },
        Err(_) => {},
    }
}

/// Parses layer declarations from `pos` up to and including the closing `}`.
fn parse_layer_list(tokens: &[ScanToken], pos: usize) -> (r: Result<(Vec<String>, Vec<RichLayer>, usize), ConfigError>)
    requires
        pos <= tokens@.len(),
    ensures
        match r {
            Ok((names, layers, q)) => names@.len() == layers@.len()
                && (forall|i: int| 0 <= i < layers@.len() ==> (#[trigger] layers@[i]).id == i && layers@[i].behaviors@.len() == KEYS)
                && layer_list(token_views(tokens@), pos as int, Seq::empty()) == Ok::<(Seq<Decl>, int), ConfigError>((decls_of(names@, layers@), q as int)),
            Err(e) => layer_list(token_views(tokens@), pos as int, Seq::empty()) == Err::<(Seq<Decl>, int), ConfigError>(e),
        },
{
    let ghost ts = token_views(tokens@);
    let mut names: Vec<String> = Vec::new();
    let mut layers: Vec<RichLayer> = Vec::new();
    let mut cur = pos;
    proof {
        assert(name_views(names@) =~= Seq::<Seq<char>>::empty());
        assert(decls_of(names@, layers@) =~= Seq::<Decl>::empty());
        match layer_list(ts, pos as int, Seq::empty()) {
            Ok((rest, q)) => {
                assert(Seq::<Decl>::empty() + rest =~= rest);
            },
            Err(_) => {},
        }
    }
    loop
        invariant
            cur <= tokens@.len(),
            ts == token_views(tokens@),
            names@.len() == layers@.len(),
            forall|i: int| 0 <= i < layers@.len() ==> (#[trigger] layers@[i]).id == i && layers@[i].behaviors@.len() == KEYS,
            layer_list(ts, pos as int, Seq::empty()) == prepend(decls_of(names@, layers@), layer_list(ts, cur as int, name_views(names@))),
        decreases tokens.len() - cur,
    {
        if cur >= tokens.len() {
            return Err(ConfigError::UnexpectedEnd);
        }
        match &tokens[cur] {
            ScanToken::Ident(name) => {
                if find_name(&names, name.as_str()).is_some() {
                    return Err(ConfigError::DuplicateLayer { pos: cur });
                }
                let (layer, q) = match parse_layer_body(tokens, cur + 1, layers.len()) {
                    Ok(x) => x,
                    Err(e) => {
                        return Err(e);
                    },
                };
                proof {
                    lemma_layer_advances(ts, cur + 1);
                }
                let ghost old_names = names@;
                let ghost old_layers = layers@;
                let ghost d: Decl = (name@, rich_views(layer.behaviors@));
                names.push(name.clone());
                layers.push(layer);
                proof {
                    assert(decls_of(names@, layers@) =~= decls_of(old_names, old_layers).push(d));
                    assert(name_views(names@) =~= name_views(old_names).push(name@));
                    lemma_prepend_step(decls_of(old_names, old_layers), d, layer_list(ts, q as int, name_views(names@)));
                }
                cur = q;
            },
            ScanToken::Bracket(b) => {
                if b.right && b.ty == BracketType::Curly {
                    assert(decls_of(names@, layers@) + Seq::<Decl>::empty() =~= decls_of(names@, layers@));
                    return Ok((names, layers, cur + 1));
                } else {
                    return Err(ConfigError::UnexpectedToken { pos: cur });
                }
            },
            _ => {
                return Err(ConfigError::UnexpectedToken { pos: cur });
            },
        }
    }
}

proof fn lemma_resolve_layer_err(bs: Seq<RichView>, names: Seq<Seq<char>>, m: int)
    requires
        0 <= m <= bs.len(),
        resolve_layer(bs.take(m), names) is Err,
    ensures
        resolve_layer(bs, names) == resolve_layer(bs.take(m), names),
    decreases bs.len() - m,
{
    if m < bs.len() {
        assert(bs.take(m + 1).drop_last() =~= bs.take(m));
        lemma_resolve_layer_err(bs, names, m + 1);
    } else {
        assert(bs.take(m) =~= bs);
    }
}

proof fn lemma_resolve_all_err(ls: Seq<Seq<RichView>>, names: Seq<Seq<char>>, m: int)
    requires
        0 <= m <= ls.len(),
        resolve_all(ls.take(m), names) is Err,
    ensures
        resolve_all(ls, names) == resolve_all(ls.take(m), names),
    decreases ls.len() - m,
{
    if m < ls.len() {
        assert(ls.take(m + 1).drop_last() =~= ls.take(m));
        lemma_resolve_all_err(ls, names, m + 1);
    } else {
        assert(ls.take(m) =~= ls);
    }
}

/// Replaces each layer name by the id of the layer so named and lays the
/// layers out in their slots.
fn resolve_layers(layers: &Vec<RichLayer>, names: &Vec<String>) -> (r: Result<[Option<Layer>; NUM_LAYERS], ConfigError>)
    requires
        layers@.len() <= NUM_LAYERS,
        names@.len() == layers@.len(),
        forall|i: int| 0 <= i < layers@.len() ==> (#[trigger] layers@[i]).behaviors@.len() == KEYS,
    ensures
        match r {
            Ok(slots) => slots_wf(slots) && resolve_all(bodies_of(layers@), name_views(names@)) is Ok
                && slots_view(slots) == slots_of(resolve_all(bodies_of(layers@), name_views(names@))->Ok_0),
            Err(e) => resolve_all(bodies_of(layers@), name_views(names@)) == Err::<Seq<Seq<Behavior>>, ConfigError>(e),
        },
{
    let ghost all = bodies_of(layers@);
    let ghost nv = name_views(names@);
    let mut res: [Option<Layer>; NUM_LAYERS] = [None; NUM_LAYERS];
    let ghost mut done: Seq<Seq<Behavior>> = Seq::empty();
    let mut l: usize = 0;
    assert(all.take(0) =~= Seq::<Seq<RichView>>::empty());
    while l < layers.len()
        invariant
            l <= layers@.len(),
            layers@.len() <= NUM_LAYERS,
            all == bodies_of(layers@),
            nv == name_views(names@),
            names@.len() == layers@.len(),
            forall|i: int| 0 <= i < layers@.len() ==> (#[trigger] layers@[i]).behaviors@.len() == KEYS,
            done.len() == l,
            resolve_all(all.take(l as int), nv) == Ok::<Seq<Seq<Behavior>>, ConfigError>(done),
            forall|i: int| 0 <= i < l ==> (#[trigger] res[i]) is Some && res[i]->Some_0.id == i && res[i]->Some_0.keys@ == done[i],
            forall|i: int| l <= i < NUM_LAYERS ==> (#[trigger] res[i]) is None,
        decreases layers.len() - l,
    {
        let ghost bs = all[l as int];
        let mut keys: [Behavior; KEYS] = [Behavior::NoOp; KEYS];
        let mut k: usize = 0;
        assert(bs.take(0) =~= Seq::<RichView>::empty());
        assert(keys@.take(0) =~= Seq::<Behavior>::empty());
        while k < KEYS
            invariant
                k <= KEYS,
                l < layers@.len(),
                bs == rich_views(layers@[l as int].behaviors@),
                bs.len() == KEYS,
                nv == name_views(names@),
                all == bodies_of(layers@),
                resolve_all(all.take(l as int), nv) == Ok::<Seq<Seq<Behavior>>, ConfigError>(done),
                resolve_layer(bs.take(k as int), nv) == Ok::<Seq<Behavior>, int>(keys@.take(k as int)),
            decreases KEYS - k,
        {
            let rb = &layers[l].behaviors[k];
            assert(bs.take(k + 1).drop_last() =~= bs.take(k as int));
            assert(bs.take(k + 1).last() == rb@);
            let b = match &rb.layer_name {
                Some(n) => match find_name(names, n.as_str()) {
                    Some(i) => Behavior::MomentaryLayer(i as u32),
                    None => {
                        proof {
                            lemma_resolve_layer_err(bs, nv, k + 1);
                            assert(all.take(l + 1).drop_last() =~= all.take(l as int));
                            lemma_resolve_all_err(all, nv, l + 1);
                        }
                        return Err(ConfigError::UndefinedLayer { layer: l, key: k });
                    },
                },
                None => rb.base,
            };
            let ghost prev = keys@;
            keys.set(k, b);
            assert(keys@.take(k + 1) =~= prev.take(k as int).push(b));
            k = k + 1;
        }
        assert(bs.take(KEYS as int) =~= bs);
        assert(keys@.take(KEYS as int) =~= keys@);
        assert(all.take(l + 1).drop_last() =~= all.take(l as int));
        res.set(l, Some(Layer { id: l as u32, keys }));
        proof {
            done = done.push(keys@);
        }
        l = l + 1;
    }
    assert(all.take(l as int) =~= all);
    assert(slots_view(res) =~= slots_of(done));
    Ok(res)
}

/// Parses `: { <layer>* } ;` from `pos`, then checks the layer count and
/// resolves layer names; returns the layer slots and the position past `;`.
pub fn parse_layers(tokens: &[ScanToken], pos: usize) -> (r: Result<([Option<Layer>; NUM_LAYERS], usize), ConfigError>)
    requires
        pos <= tokens@.len(),
    ensures
        match r {
            Ok((slots, p)) => slots_wf(slots) && layers_spec(token_views(tokens@), pos as int) is Ok
                && slots_view(slots) == slots_of(layers_spec(token_views(tokens@), pos as int)->Ok_0.0)
                && p == layers_spec(token_views(tokens@), pos as int)->Ok_0.1,
            Err(e) => layers_spec(token_views(tokens@), pos as int) == Err::<(Seq<Seq<Behavior>>, int), ConfigError>(e),
        },
{
    let ghost ts = token_views(tokens@);
    let head = vec![ScanToken::Colon, bracket(false, BracketType::Curly)];
    assert(token_views(head@) =~= seq![TokenView::Colon, bracket_token(false, BracketType::Curly)]);
    let p = match expect_all(tokens, pos, head.as_slice()) {
        Ok(p) => p,
        Err(e) => {
            return Err(e);
        },
    };
    proof {
        lemma_expect_run_advances(ts, pos as int, token_views(head@));
    }
    let (names, layers, q) = match parse_layer_list(tokens, p) {
        Ok(x) => x,
        Err(e) => {
            return Err(e);
        },
    };
    let ghost ds = decls_of(names@, layers@);
    assert(decl_bodies(ds) =~= bodies_of(layers@));
    assert(decl_names(ds) =~= name_views(names@));
    let r = match expect(tokens, q, &ScanToken::Semicolon) {
        Ok(r) => r,
        Err(e) => {
            return Err(e);
        },
    };
    if layers.len() > NUM_LAYERS {
        return Err(ConfigError::TooManyLayers { count: layers.len() });
    }
    match resolve_layers(&layers, &names) {
        Ok(slots) => Ok((slots, r)),
        Err(e) => Err(e),
    }
}

/// The compile result that `r` stands for agrees with the spec result `s`.
pub open spec fn config_agrees(r: Result<Config, ConfigError>, s: Result<(Options, Seq<Seq<Behavior>>), ConfigError>) -> bool {
    match r {
        Ok(c) => c.wf() && s is Ok && c@ == config_view(s->Ok_0.0, s->Ok_0.1),
        Err(e) => s == Err::<(Options, Seq<Seq<Behavior>>), ConfigError>(e),
    }
}

/// Parses a whole token sequence `options ...; layers ...;` into a configuration.
pub fn parse_config(tokens: &[ScanToken]) -> (r: Result<Config, ConfigError>)
    ensures
        config_agrees(r, config_spec(token_views(tokens@))),
{
    let p = match expect(tokens, 0, &ScanToken::Ident("options".to_owned())) {
        Ok(p) => p,
        Err(e) => {
            return Err(e);
        },
    };
    let (options, q) = match parse_options(tokens, p) {
        Ok(x) => x,
        Err(e) => {
            return Err(e);
        },
    };
    let r = match expect(tokens, q, &ScanToken::Ident("layers".to_owned())) {
        Ok(r) => r,
        Err(e) => {
            return Err(e);
        },
    };
    match parse_layers(tokens, r) {
        Ok((layers, _)) => Ok(Config { options, layers }),
        Err(e) => Err(e),
    }
}

/// What compiling the document `input` gives.
pub open spec fn compile_spec(input: Seq<u8>) -> Result<(Options, Seq<Seq<Behavior>>), ConfigError> {
    config_spec(scan_spec(input))
}

/// Compiles a configuration document: tokenizes it, then parses and resolves it.
pub fn compile(input: &[u8]) -> (r: Result<Config, ConfigError>)
    ensures
        config_agrees(r, compile_spec(input@)),
{
    let tokens = scan_input(input);
    parse_config(tokens.as_slice())
}

} // verus!
