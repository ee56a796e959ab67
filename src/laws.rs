use vstd::prelude::*;

use crate::model::{slots_view, Behavior, Config, KEYS, NUM_LAYERS};
use crate::parser::{
    bracket_token, compile_spec, expect_at, config_agrees, decl_bodies, decl_names, expect_run, index_from,
    groups_spec, layer_list, layer_spec, layers_spec, lemma_layer_advances, plain, resolve_all,
    resolve_layer, resolve_one, ConfigError, Decl, RichView,
};
use crate::scanner::{BracketType, TokenView};

verus! {

/// Compiling depends on the document alone: two runs on equal documents
/// return the same configuration, or the same error.
pub proof fn lemma_compile_deterministic(
    a: Seq<u8>,
    b: Seq<u8>,
    r1: Result<Config, ConfigError>,
    r2: Result<Config, ConfigError>,
)
    requires
        a == b,
        config_agrees(r1, compile_spec(a)),
        config_agrees(r2, compile_spec(b)),
    ensures
        r1 == r2,
{
    broadcast use vstd::array::group_array_axioms;

    if r1 is Ok && r2 is Ok {
        let c1 = r1->Ok_0;
        let c2 = r2->Ok_0;
        assert forall|i: int| 0 <= i < NUM_LAYERS implies c1.layers[i] == c2.layers[i] by {
            assert(slots_view(c1.layers)[i] == slots_view(c2.layers)[i]);
            if c1.layers[i] is Some {
                assert(c1.layers[i]->Some_0.keys =~= c2.layers[i]->Some_0.keys);
            }
        }
        assert(c1.layers =~= c2.layers);
    }
}

proof fn lemma_layer_list_names(ts: Seq<TokenView>, pos: int, seen: Seq<Seq<char>>)
    ensures
        layer_list(ts, pos, seen) is Ok ==> {
            let ds = layer_list(ts, pos, seen)->Ok_0.0;
            &&& forall|a: int, b: int| 0 <= a < b < ds.len() ==> ds[a].0 != ds[b].0
            &&& forall|a: int| 0 <= a < ds.len() ==> !seen.contains(#[trigger] ds[a].0)
        },
    decreases ts.len() - pos,
{
    if 0 <= pos < ts.len() {
        match ts[pos] {
            TokenView::Ident(name) => {
                lemma_layer_advances(ts, pos + 1);
                if !seen.contains(name) {
                    match crate::parser::layer_spec(ts, pos + 1) {
                        Ok((bs, p)) => {
                            lemma_layer_list_names(ts, p, seen.push(name));
                            if layer_list(ts, pos, seen) is Ok {
                                let rest = layer_list(ts, p, seen.push(name))->Ok_0.0;
                                let ds = layer_list(ts, pos, seen)->Ok_0.0;
                                assert(ds == seq![(name, bs)] + rest);
                                assert forall|a: int| 0 <= a < ds.len() implies !seen.contains(
                                    #[trigger] ds[a].0,
                                ) by {
                                    if a > 0 {
                                        assert(ds[a] == rest[a - 1]);
                                        assert(!seen.push(name).contains(rest[a - 1].0));
                                        if seen.contains(ds[a].0) {
                                            let w = choose|w: int| 0 <= w < seen.len() && seen[w] == ds[a].0;
                                            assert(seen.push(name)[w] == ds[a].0);
                                        }
                                    }
                                }
                                assert forall|a: int, b: int| 0 <= a < b < ds.len() implies ds[a].0
                                    != ds[b].0 by {
                                    if a == 0 {
                                        assert(ds[b] == rest[b - 1]);
                                        assert(!seen.push(name).contains(rest[b - 1].0));
                                        assert(seen.push(name)[seen.len() as int] == name);
                                    } else {
                                        assert(ds[a] == rest[a - 1]);
                                        assert(ds[b] == rest[b - 1]);
                                    }
                                }
                            }
                        },
                        Err(_) => {},
                    }
                }
            },
            _ => {},
        }
    }
}

proof fn lemma_resolve_layer_each(bs: Seq<crate::parser::RichView>, names: Seq<Seq<char>>)
    ensures
        resolve_layer(bs, names) is Ok ==> {
            let out = resolve_layer(bs, names)->Ok_0;
            &&& out.len() == bs.len()
            &&& forall|k: int| 0 <= k < bs.len() ==> resolve_one(#[trigger] bs[k], names) == Some(out[k])
        },
    decreases bs.len(),
{
    if bs.len() > 0 {
        lemma_resolve_layer_each(bs.drop_last(), names);
        if resolve_layer(bs, names) is Ok {
            let out = resolve_layer(bs, names)->Ok_0;
            assert forall|k: int| 0 <= k < bs.len() implies resolve_one(#[trigger] bs[k], names)
                == Some(out[k]) by {
                if k < bs.len() - 1 {
                    assert(bs.drop_last()[k] == bs[k]);
                }
            }
        }
    }
}

proof fn lemma_resolve_all_each(ls: Seq<Seq<crate::parser::RichView>>, names: Seq<Seq<char>>)
    ensures
        resolve_all(ls, names) is Ok ==> {
            let out = resolve_all(ls, names)->Ok_0;
            &&& out.len() == ls.len()
            &&& forall|i: int| 0 <= i < ls.len() ==> resolve_layer(#[trigger] ls[i], names) == Ok::<Seq<Behavior>, int>(out[i])
        },
    decreases ls.len(),
{
    if ls.len() > 0 {
        lemma_resolve_all_each(ls.drop_last(), names);
        if resolve_all(ls, names) is Ok {
            let out = resolve_all(ls, names)->Ok_0;
            assert forall|i: int| 0 <= i < ls.len() implies resolve_layer(#[trigger] ls[i], names)
                == Ok::<Seq<Behavior>, int>(out[i]) by {
                if i < ls.len() - 1 {
                    assert(ls.drop_last()[i] == ls[i]);
                }
            }
        }
    }
}

proof fn lemma_index_of_distinct(names: Seq<Seq<char>>, j: int, i: int)
    requires
        0 <= i <= j < names.len(),
        forall|a: int, b: int| 0 <= a < b < names.len() ==> names[a] != names[b],
    ensures
        index_from(names, names[j], i) == Some(j),
    decreases j - i,
{
    if i < j {
        lemma_index_of_distinct(names, j, i + 1);
    }
}

/// The declarations of the layer block that starts at `pos`.
pub open spec fn declared(ts: Seq<TokenView>, pos: int) -> Seq<Decl> {
    let p = expect_run(ts, pos, seq![TokenView::Colon, bracket_token(false, BracketType::Curly)])->Ok_0;
    layer_list(ts, p, Seq::empty())->Ok_0.0
}

/// Layers are numbered in the order they are declared, whatever their names:
/// the layer declared `i`-th is layer `i` of the result, holding its own
/// behaviors resolved, and its name stands for id `i`.
pub proof fn lemma_ids_in_declaration_order(ts: Seq<TokenView>, pos: int)
    requires
        layers_spec(ts, pos) is Ok,
    ensures
        ({
            let ds = declared(ts, pos);
            let ls = layers_spec(ts, pos)->Ok_0.0;
            &&& ls.len() == ds.len()
            &&& forall|i: int|
                0 <= i < ds.len() ==> resolve_layer(#[trigger] ds[i].1, decl_names(ds)) == Ok::<Seq<Behavior>, int>(ls[i])
            &&& forall|i: int| 0 <= i < ds.len() ==> index_from(decl_names(ds), #[trigger] ds[i].0, 0) == Some(i)
        }),
{
    let p = expect_run(ts, pos, seq![TokenView::Colon, bracket_token(false, BracketType::Curly)])->Ok_0;
    let ds = declared(ts, pos);
    lemma_layer_list_names(ts, p, Seq::empty());
    lemma_resolve_all_each(decl_bodies(ds), decl_names(ds));
    assert forall|i: int| 0 <= i < ds.len() implies resolve_layer(#[trigger] ds[i].1, decl_names(ds))
        == Ok::<Seq<Behavior>, int>(layers_spec(ts, pos)->Ok_0.0[i]) by {
        assert(decl_bodies(ds)[i] == ds[i].1);
    }
    assert forall|i: int| 0 <= i < ds.len() implies index_from(decl_names(ds), #[trigger] ds[i].0, 0)
        == Some(i) by {
        assert(decl_names(ds)[i] == ds[i].0);
        lemma_index_of_distinct(decl_names(ds), i, 0);
    }
}

/// A momentary-layer behavior at key `k` of the `i`-th declared layer that
/// names the `j`-th declared layer resolves to id `j`, also when that layer
/// is declared after the reference.
pub proof fn lemma_reference_resolves(ts: Seq<TokenView>, pos: int, i: int, k: int, j: int)
    requires
        layers_spec(ts, pos) is Ok,
        0 <= i < declared(ts, pos).len(),
        0 <= j < declared(ts, pos).len(),
        0 <= k < declared(ts, pos)[i].1.len(),
        declared(ts, pos)[i].1[k].layer_name == Some(declared(ts, pos)[j].0),
    ensures
        layers_spec(ts, pos)->Ok_0.0[i][k] == Behavior::MomentaryLayer(j as u32),
{
    let ds = declared(ts, pos);
    lemma_ids_in_declaration_order(ts, pos);
    assert(index_from(decl_names(ds), ds[j].0, 0) == Some(j));
    lemma_resolve_layer_each(ds[i].1, decl_names(ds));
}

/// The layer count is checked only once the whole layer block and its `;`
/// have been read: then more than `NUM_LAYERS` declarations fail with their
/// count, and up to `NUM_LAYERS` go on to name resolution.
pub proof fn lemma_layer_limit(ts: Seq<TokenView>, pos: int)
    requires
        expect_run(ts, pos, seq![TokenView::Colon, bracket_token(false, BracketType::Curly)]) is Ok,
        layer_list(
            ts,
            expect_run(ts, pos, seq![TokenView::Colon, bracket_token(false, BracketType::Curly)])->Ok_0,
            Seq::empty(),
        ) is Ok,
        expect_at(
            ts,
            layer_list(
                ts,
                expect_run(ts, pos, seq![TokenView::Colon, bracket_token(false, BracketType::Curly)])->Ok_0,
                Seq::empty(),
            )->Ok_0.1,
            TokenView::Semicolon,
        ) is Ok,
    ensures
        declared(ts, pos).len() > NUM_LAYERS ==> layers_spec(ts, pos) == Err::<(Seq<Seq<Behavior>>, int), ConfigError>(
            ConfigError::TooManyLayers { count: declared(ts, pos).len() as usize },
        ),
        declared(ts, pos).len() <= NUM_LAYERS ==> (layers_spec(ts, pos) is Ok <==> resolve_all(
            decl_bodies(declared(ts, pos)),
            decl_names(declared(ts, pos)),
        ) is Ok),
{
}

/// `g` written `n` times in a row.
pub open spec fn repeat_tokens(g: Seq<TokenView>, n: nat) -> Seq<TokenView>
    decreases n,
{
    if n == 0 {
        Seq::empty()
    } else {
        repeat_tokens(g, (n - 1) as nat) + g
    }
}

/// The group `(n)`.
pub open spec fn noop_group() -> Seq<TokenView> {
    seq![bracket_token(false, BracketType::Paren), TokenView::Ident("n"@), bracket_token(true, BracketType::Paren)]
}

/// A layer body `: [ (n) ... (n) ] ,` with exactly `KEYS` groups.
pub open spec fn noop_layer_body() -> Seq<TokenView> {
    seq![TokenView::Colon, bracket_token(false, BracketType::Square)] + repeat_tokens(noop_group(), KEYS as nat)
        + seq![bracket_token(true, BracketType::Square), TokenView::Comma]
}

/// Where token `t` of group `j` stands in a run of three-token groups.
pub open spec fn slot(j: int, t: int) -> int {
    3 * j + t
}

proof fn lemma_repeat_index(g: Seq<TokenView>, n: nat)
    requires
        g.len() == 3,
    ensures
        repeat_tokens(g, n).len() == 3 * n,
        forall|j: int, t: int| 0 <= j < n && 0 <= t < 3 ==> repeat_tokens(g, n)[#[trigger] slot(j, t)] == g[t],
    decreases n,
{
    if n > 0 {
        lemma_repeat_index(g, (n - 1) as nat);
        let prev = repeat_tokens(g, (n - 1) as nat);
        assert forall|j: int, t: int| 0 <= j < n && 0 <= t < 3 implies repeat_tokens(g, n)[#[trigger] slot(j, t)]
            == g[t] by {
            if j < n - 1 {
                assert(repeat_tokens(g, n)[slot(j, t)] == prev[slot(j, t)]);
            }
        }
    }
}

proof fn lemma_noop_groups(ts: Seq<TokenView>, p: int, i: nat)
    requires
        0 <= p,
        p + 3 * i <= ts.len(),
        forall|j: int, t: int| 0 <= j < i && 0 <= t < 3 ==> ts[p + #[trigger] slot(j, t)] == noop_group()[t],
    ensures
        groups_spec(ts, p, i) == Ok::<(Seq<RichView>, int), ConfigError>(
            (Seq::new(i, |k: int| plain(Behavior::NoOp)), p + 3 * i),
        ),
    decreases i,
{
    if i > 0 {
        lemma_noop_groups(ts, p, (i - 1) as nat);
        let q = p + 3 * (i - 1);
        assert(ts[p + slot(i - 1, 0)] == noop_group()[0]);
        assert(ts[p + slot(i - 1, 1)] == noop_group()[1]);
        assert(ts[p + slot(i - 1, 2)] == noop_group()[2]);
        reveal_strlit("n");
        reveal_strlit("kp");
        reveal_strlit("ml");
        reveal_strlit("ht");
        reveal_strlit("t");
        assert("n"@ != "kp"@ && "n"@ != "ml"@ && "n"@ != "ht"@ && "n"@ != "t"@) by {
            assert("n"@.len() == 1);
            assert("kp"@.len() == 2);
            assert("ml"@.len() == 2);
            assert("ht"@.len() == 2);
            assert("t"@[0] != "n"@[0]);
        }
        assert(crate::parser::behavior_spec(ts, q + 1) == Ok::<(RichView, int), ConfigError>(
            (plain(Behavior::NoOp), q + 2),
        ));
        assert(crate::parser::group_spec(ts, q) == Ok::<(RichView, int), ConfigError>(
            (plain(Behavior::NoOp), q + 3),
        ));
        assert(Seq::new((i - 1) as nat, |k: int| plain(Behavior::NoOp)).push(plain(Behavior::NoOp))
            =~= Seq::new(i, |k: int| plain(Behavior::NoOp)));
    } else {
        assert(Seq::new(0, |k: int| plain(Behavior::NoOp)) =~= Seq::<RichView>::empty());
    }
}

proof fn lemma_noop_resolve(n: nat, names: Seq<Seq<char>>)
    ensures
        resolve_layer(Seq::new(n, |k: int| plain(Behavior::NoOp)), names) == Ok::<Seq<Behavior>, int>(
            Seq::new(n, |k: int| Behavior::NoOp),
        ),
    decreases n,
{
    if n > 0 {
        lemma_noop_resolve((n - 1) as nat, names);
        assert(Seq::new(n, |k: int| plain(Behavior::NoOp)).drop_last() =~= Seq::new(
            (n - 1) as nat,
            |k: int| plain(Behavior::NoOp),
        ));
        assert(Seq::new((n - 1) as nat, |k: int| Behavior::NoOp).push(Behavior::NoOp) =~= Seq::new(
            n,
            |k: int| Behavior::NoOp,
        ));
    } else {
        assert(Seq::new(0, |k: int| Behavior::NoOp) =~= Seq::<Behavior>::empty());
    }
}

/// A layer body of exactly `KEYS` groups `(n)` parses to `KEYS` behaviors,
/// and every one of them resolves to `NoOp`, whatever layers are declared.
pub proof fn lemma_noop_layer(ts: Seq<TokenView>, pos: int, names: Seq<Seq<char>>)
    requires
        0 <= pos,
        pos + noop_layer_body().len() <= ts.len(),
        ts.subrange(pos, pos + noop_layer_body().len()) == noop_layer_body(),
    ensures
        layer_spec(ts, pos) is Ok,
        layer_spec(ts, pos)->Ok_0.1 == pos + noop_layer_body().len(),
        resolve_layer(layer_spec(ts, pos)->Ok_0.0, names) == Ok::<Seq<Behavior>, int>(
            Seq::new(KEYS as nat, |k: int| Behavior::NoOp),
        ),
{
    let body = noop_layer_body();
    let rep = repeat_tokens(noop_group(), KEYS as nat);
    lemma_repeat_index(noop_group(), KEYS as nat);
    assert(body.len() == 4 + 3 * KEYS);
    assert forall|j: int, t: int| 0 <= j < KEYS && 0 <= t < 3 implies ts[(pos + 2) + #[trigger] slot(j, t)]
        == noop_group()[t] by {
        assert(ts[pos + 2 + slot(j, t)] == body[2 + slot(j, t)]);
        assert(body[2 + slot(j, t)] == rep[slot(j, t)]);
    }
    assert(ts[pos] == body[0]);
    assert(ts[pos + 1] == body[1]);
    assert(ts[pos + 2 + 3 * KEYS] == body[2 + 3 * KEYS]);
    assert(ts[pos + 3 + 3 * KEYS] == body[3 + 3 * KEYS]);
    lemma_noop_groups(ts, pos + 2, KEYS as nat);
    reveal_with_fuel(expect_run, 3);
    lemma_noop_resolve(KEYS as nat, names);
}

} // verus!
