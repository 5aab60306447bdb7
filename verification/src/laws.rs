//! Laws of the interpreter, each proved from the contracts the library
//! states: token and node counts agree, snow climbs one level per tick,
//! hatcheries grow monotonically under power, the catch at the root is
//! first-in first-out, delays block exactly two movement ticks, and a
//! salmon with nowhere to go waits forever.

use vstd::prelude::*;

use crate::program::{ParseError, ProgramView};
use crate::river::{
    attach_top, build, child_after_up, collapse, delay_active, dest_for, first_named,
    first_open_child, fish_up_move, forest_is_powered, hatch_rule, homeless_salmon,
    lemma_find_path, lemma_first_open_child, moves_up, parse_spec, snow_rule, spec_find_path,
    spend_delay, tick_forest, tick_node, tick_spec, NodeTypeView, NodeView,
};
use crate::salmon::SalmonView;
use crate::split_custom_escape::tokenize;
use crate::tick::Tick;

verus! {

/// The number of nodes in a tree.
pub open spec fn tree_size(n: NodeView) -> nat
    decreases n,
{
    1 + forest_size(n.children)
}

/// The number of nodes in a forest.
pub open spec fn forest_size(s: Seq<NodeView>) -> nat
    decreases s,
{
    if s.len() == 0 {
        0
    } else {
        tree_size(s[0]) + forest_size(s.drop_first())
    }
}

/// The number of nodes on a builder stack.
pub open spec fn stack_size(s: Seq<NodeView>) -> nat
    decreases s,
{
    if s.len() == 0 {
        0
    } else {
        tree_size(s[0]) + stack_size(s.drop_first())
    }
}

/// The number of non-empty tokens at or after `j`.
pub open spec fn named_count(toks: Seq<Seq<char>>, j: int) -> nat
    decreases toks.len() - j,
    when 0 <= j <= toks.len()
{
    if j >= toks.len() {
        0
    } else {
        (if toks[j].len() > 0 {
            1nat
        } else {
            0nat
        }) + named_count(toks, j + 1)
    }
}

/// Growing a forest by one tree at the end grows its size by that tree.
proof fn lemma_forest_size_push(s: Seq<NodeView>, x: NodeView)
    ensures
        forest_size(s.push(x)) == forest_size(s) + tree_size(x),
    decreases s,
{
    if s.len() == 0 {
        assert(s.push(x)[0] == x);
        assert(s.push(x).drop_first() =~= Seq::<NodeView>::empty());
        assert(forest_size(Seq::<NodeView>::empty()) == 0);
        assert(forest_size(s) == 0);
    } else {
        assert(s.push(x).drop_first() =~= s.drop_first().push(x));
        assert(s.push(x)[0] == s[0]);
        lemma_forest_size_push(s.drop_first(), x);
    }
}

/// The same for a stack.
proof fn lemma_stack_size_push(s: Seq<NodeView>, x: NodeView)
    ensures
        stack_size(s.push(x)) == stack_size(s) + tree_size(x),
    decreases s,
{
    if s.len() == 0 {
        assert(s.push(x)[0] == x);
        assert(s.push(x).drop_first() =~= Seq::<NodeView>::empty());
        assert(stack_size(Seq::<NodeView>::empty()) == 0);
        assert(stack_size(s) == 0);
    } else {
        assert(s.push(x).drop_first() =~= s.drop_first().push(x));
        assert(s.push(x)[0] == s[0]);
        lemma_stack_size_push(s.drop_first(), x);
    }
}

/// Dropping a stack's last tree loses exactly that tree's size.
proof fn lemma_stack_size_drop_last(s: Seq<NodeView>)
    requires
        s.len() >= 1,
    ensures
        stack_size(s) == stack_size(s.drop_last()) + tree_size(s.last()),
{
    assert(s =~= s.drop_last().push(s.last()));
    lemma_stack_size_push(s.drop_last(), s.last());
}

/// A dedent moves a tree from the top of the stack into the node below
/// it; the total number of nodes on the stack does not change.
proof fn lemma_attach_top_size(s: Seq<NodeView>)
    requires
        s.len() >= 2,
    ensures
        stack_size(attach_top(s)) == stack_size(s),
        attach_top(s).len() == s.len() - 1,
{
    let top = s.last();
    let below = s[s.len() - 2];
    let merged = NodeView { children: below.children.push(top), ..below };
    lemma_forest_size_push(below.children, top);
    assert(tree_size(merged) == tree_size(below) + tree_size(top));
    lemma_stack_size_push(s.take(s.len() - 2), merged);
    lemma_stack_size_drop_last(s);
    lemma_stack_size_drop_last(s.drop_last());
    assert(s.drop_last().drop_last() =~= s.take(s.len() - 2));
    assert(s.drop_last().last() == below);
}

/// Folding a stack into its root keeps every node.
proof fn lemma_collapse_size(s: Seq<NodeView>)
    requires
        s.len() >= 1,
    ensures
        tree_size(collapse(s)) == stack_size(s),
    decreases s.len(),
{
    if s.len() == 1 {
        assert(s.drop_first() =~= Seq::<NodeView>::empty());
        assert(stack_size(Seq::<NodeView>::empty()) == 0);
    } else {
        lemma_attach_top_size(s);
        lemma_collapse_size(attach_top(s));
    }
}

/// A built tree holds exactly the nodes on the stack plus one node per
/// remaining non-empty token.
proof fn lemma_build_size(stack: Seq<NodeView>, toks: Seq<Seq<char>>, j: int)
    requires
        stack.len() >= 1,
        0 <= j <= toks.len(),
    ensures
        match build(stack, toks, j) {
            Some(root) => tree_size(root) == stack_size(stack) + named_count(toks, j),
            None => true,
        },
    decreases toks.len() - j,
{
    if j >= toks.len() {
        lemma_collapse_size(stack);
    } else if toks[j].len() == 0 {
        if stack.len() > 1 {
            lemma_attach_top_size(stack);
            lemma_build_size(attach_top(stack), toks, j + 1);
        }
    } else {
        let fresh = NodeView::spec_new(toks[j]);
        assert(forest_size(fresh.children) == 0);
        assert(tree_size(fresh) == 1);
        lemma_stack_size_push(stack, fresh);
        lemma_build_size(stack.push(fresh), toks, j + 1);
    }
}

/// Before the root token, every token is empty, so the non-empty count
/// from the start equals the count from the root on; with no root it is
/// zero.
proof fn lemma_named_count_from(toks: Seq<Seq<char>>, j: int)
    requires
        0 <= j <= toks.len(),
    ensures
        match first_named(toks, j) {
            Some(r) => named_count(toks, j) == named_count(toks, r) && named_count(toks, r) == 1
                + named_count(toks, r + 1) && 0 <= r < toks.len(),
            None => named_count(toks, j) == 0,
        },
    decreases toks.len() - j,
{
    if j < toks.len() && toks[j].len() == 0 {
        lemma_named_count_from(toks, j + 1);
    }
}

/// Every program's tree holds exactly one node per non-empty token the
/// tokenizer produces: the quine program has none, and a malformed
/// program has no tree.
pub proof fn lemma_node_count_matches_tokens(s: Seq<char>)
    ensures
        match (parse_spec(s), tokenize(s)) {
            (Ok(ProgramView::River(root)), Some(toks)) => tree_size(root) == named_count(toks, 0),
            (Ok(ProgramView::Quine), Some(toks)) => named_count(toks, 0) == 0,
            (Err(ParseError::MalformedProgram), _) => true,
            _ => false,
        },
{
    match tokenize(s) {
        None => {},
        Some(toks) => {
            lemma_named_count_from(toks, 0);
            match first_named(toks, 0) {
                None => {},
                Some(r) => {
                    let init = seq![NodeView::spec_new(toks[r])];
                    assert(forest_size(NodeView::spec_new(toks[r]).children) == 0);
                    assert(stack_size(init.drop_first()) == 0) by {
                        assert(init.drop_first() =~= Seq::<NodeView>::empty());
                    }
                    assert(stack_size(init) == 1);
                    lemma_build_size(init, toks, r + 1);
                },
            }
        },
    }
}

/// The tree after `k` ticks of one kind.
pub open spec fn ticked(n: NodeView, t: Tick, k: nat) -> NodeView
    decreases k,
{
    if k == 0 {
        n
    } else {
        tick_spec(ticked(n, t, (k - 1) as nat), t).0
    }
}

/// A ticked forest is the ticked trees, in order.
proof fn lemma_tick_forest_pointwise(s: Seq<NodeView>, t: Tick)
    ensures
        tick_forest(s, t).0.len() == s.len(),
        forall|i: int|
            0 <= i < s.len() ==> tick_forest(s, t).0[i] == (#[trigger] tick_node(s[i], t)).0,
    decreases s,
{
    if s.len() > 0 {
        lemma_tick_forest_pointwise(s.drop_first(), t);
        assert forall|i: int|
            0 <= i < s.len() implies tick_forest(s, t).0[i] == (#[trigger] tick_node(s[i], t)).0 by {
            if i > 0 {
                assert(s.drop_first()[i - 1] == s[i]);
                assert(tick_forest(s, t).0[i] == tick_forest(s.drop_first(), t).0[i - 1]);
            }
        }
    }
}

/// Whether some direct child is snowy now.
pub open spec fn forest_any_snowy(s: Seq<NodeView>) -> bool {
    exists|i: int| 0 <= i < s.len() && s[i].snowy
}

/// What one snow tick does to a node: it becomes snowy when it was not
/// and some child was, reading the children's pre-tick flags; snow
/// destroys a hydro power; the children are transformed the same way.
pub open spec fn snow_map(n: NodeView) -> NodeView
    decreases n,
{
    NodeView {
        snowy: n.snowy || forest_any_snowy(n.children),
        destroyed: if !n.snowy && forest_any_snowy(n.children) && n.node_type is HydroPower {
            true
        } else {
            n.destroyed
        },
        children: snow_forest(n.children),
        ..n
    }
}

/// One snow tick over a forest.
pub open spec fn snow_forest(s: Seq<NodeView>) -> Seq<NodeView>
    decreases s,
{
    if s.len() == 0 {
        Seq::empty()
    } else {
        seq![snow_map(s[0])] + snow_forest(s.drop_first())
    }
}

/// One snow tick over a forest, tree by tree.
proof fn lemma_snow_forest_pointwise(s: Seq<NodeView>)
    ensures
        snow_forest(s).len() == s.len(),
        forall|i: int| 0 <= i < s.len() ==> snow_forest(s)[i] == snow_map(#[trigger] s[i]),
    decreases s,
{
    if s.len() > 0 {
        lemma_snow_forest_pointwise(s.drop_first());
        assert forall|i: int|
            0 <= i < s.len() implies snow_forest(s)[i] == snow_map(#[trigger] s[i]) by {
            if i > 0 {
                assert(s.drop_first()[i - 1] == s[i]);
                assert(snow_forest(s)[i] == snow_forest(s.drop_first())[i - 1]);
            }
        }
    }
}

/// The snow tick is the snow rule applied at every node.
pub proof fn lemma_snow_tick_nodewise(n: NodeView)
    ensures
        tick_spec(n, Tick::Snow).0 == snow_map(n),
        tick_spec(n, Tick::Snow).1 == Seq::<Seq<char>>::empty(),
    decreases n,
{
    lemma_snow_tick_forest(n.children);
    lemma_snow_forest_pointwise(n.children);
    assert(snow_rule(n).salmon + Seq::<SalmonView>::empty() =~= n.salmon);
    assert(tick_node(n, Tick::Snow).0 =~= snow_map(n));
    assert(tick_node(n, Tick::Snow).1.map_values(|s: SalmonView| s.name) =~= Seq::<
        Seq<char>,
    >::empty());
}

proof fn lemma_snow_tick_forest(s: Seq<NodeView>)
    ensures
        tick_forest(s, Tick::Snow).0 == snow_forest(s),
        tick_forest(s, Tick::Snow).1 == Seq::<SalmonView>::empty(),
    decreases s,
{
    if s.len() == 0 {
    } else {
        lemma_snow_tick_nodewise(s[0]);
        lemma_snow_tick_forest(s.drop_first());
        assert(tick_node(s[0], Tick::Snow).1 =~= Seq::<SalmonView>::empty());
        assert(tick_forest(s, Tick::Snow).1 =~= Seq::<SalmonView>::empty());
        assert(tick_forest(s, Tick::Snow).0 =~= snow_forest(s));
    }
}

/// Whether some node at depth at most `k` below `n`, `n` itself included,
/// is snowy.
pub open spec fn snowy_within(n: NodeView, k: nat) -> bool
    decreases n,
{
    n.snowy || (k > 0 && forest_snowy_within(n.children, (k - 1) as nat))
}

/// Whether some tree of the forest has a snowy node within depth `k`.
pub open spec fn forest_snowy_within(s: Seq<NodeView>, k: nat) -> bool
    decreases s,
{
    s.len() > 0 && (snowy_within(s[0], k) || forest_snowy_within(s.drop_first(), k))
}

/// A snowy node within depth `k` is one within any larger depth.
proof fn lemma_snowy_within_mono(n: NodeView, k1: nat, k2: nat)
    requires
        k1 <= k2,
    ensures
        snowy_within(n, k1) ==> snowy_within(n, k2),
    decreases n,
{
    if k1 > 0 {
        lemma_forest_snowy_within_mono(n.children, (k1 - 1) as nat, (k2 - 1) as nat);
    }
}

proof fn lemma_forest_snowy_within_mono(s: Seq<NodeView>, k1: nat, k2: nat)
    requires
        k1 <= k2,
    ensures
        forest_snowy_within(s, k1) ==> forest_snowy_within(s, k2),
    decreases s,
{
    if s.len() > 0 {
        lemma_snowy_within_mono(s[0], k1, k2);
        lemma_forest_snowy_within_mono(s.drop_first(), k1, k2);
    }
}

/// A snowy child now is a snowy node within depth zero of the forest.
proof fn lemma_forest_any_is_within_zero(s: Seq<NodeView>)
    ensures
        forest_any_snowy(s) == forest_snowy_within(s, 0),
    decreases s,
{
    if s.len() > 0 {
        lemma_forest_any_is_within_zero(s.drop_first());
        if s[0].snowy {
            assert(forest_any_snowy(s));
            assert(snowy_within(s[0], 0));
            assert(forest_snowy_within(s, 0));
        } else if forest_snowy_within(s.drop_first(), 0) {
            let i = choose|i: int| 0 <= i < s.drop_first().len() && s.drop_first()[i].snowy;
            assert(s[i + 1].snowy);
            assert(forest_any_snowy(s));
            assert(forest_snowy_within(s, 0));
        } else {
            assert forall|i: int| 0 <= i < s.len() implies !s[i].snowy by {
                if i > 0 {
                    assert(s.drop_first()[i - 1] == s[i]);
                }
                if i == 0 {
                    assert(!s[0].snowy);
                }
            }
            assert(!forest_any_snowy(s));
            assert(!snowy_within(s[0], 0));
            assert(!forest_snowy_within(s, 0));
        }
    }
}

/// One snow tick turns "snowy within `k`" of the new tree into "snowy
/// within `k + 1`" of the old: the flag climbs exactly one level.
proof fn lemma_snow_map_commute(n: NodeView, k: nat)
    ensures
        snowy_within(snow_map(n), k) == snowy_within(n, k + 1),
    decreases n,
{
    lemma_forest_any_is_within_zero(n.children);
    if k == 0 {
    } else {
        lemma_snow_forest_commute(n.children, (k - 1) as nat);
        lemma_forest_snowy_within_mono(n.children, 0, k);
    }
}

proof fn lemma_snow_forest_commute(s: Seq<NodeView>, k: nat)
    ensures
        forest_snowy_within(snow_forest(s), k) == forest_snowy_within(s, (k + 1) as nat),
    decreases s,
{
    if s.len() > 0 {
        lemma_snow_forest_pointwise(s);
        lemma_snow_map_commute(s[0], k);
        lemma_snow_forest_commute(s.drop_first(), k);
        assert(snow_forest(s)[0] == snow_map(s[0]));
        assert(snow_forest(s).drop_first() =~= snow_forest(s.drop_first()));
    }
}

proof fn lemma_snow_iter_within(n: NodeView, k: nat, j: nat)
    ensures
        snowy_within(ticked(n, Tick::Snow, k), j) == snowy_within(n, (k + j) as nat),
    decreases k,
{
    if k > 0 {
        let m = ticked(n, Tick::Snow, (k - 1) as nat);
        lemma_snow_tick_nodewise(m);
        lemma_snow_map_commute(m, j);
        lemma_snow_iter_within(n, (k - 1) as nat, (j + 1) as nat);
    }
}

/// Snow climbs exactly one level per snow tick: after `k` snow ticks a
/// node is snowy exactly when, before them, some node at depth at most
/// `k` below it — itself included — was snowy. In particular, one tick
/// never makes a child's new snow visible to its parent within that same
/// tick: a tree of depth two needs two ticks for the root to see a leaf's
/// snow.
pub proof fn lemma_snow_climbs_one_level_per_tick(n: NodeView, k: nat)
    ensures
        ticked(n, Tick::Snow, k).snowy == snowy_within(n, k),
{
    lemma_snow_iter_within(n, k, 0);
}

/// What one fish-hatch tick does to a node: a powered hatchery gains one
/// homeless salmon, everything else stands; the children likewise.
pub open spec fn hatch_map(n: NodeView) -> NodeView
    decreases n,
{
    NodeView {
        salmon: if n.node_type is Hatchery && n.spec_is_powered() {
            n.salmon.push(homeless_salmon())
        } else {
            n.salmon
        },
        children: hatch_forest(n.children),
        ..n
    }
}

/// One fish-hatch tick over a forest.
pub open spec fn hatch_forest(s: Seq<NodeView>) -> Seq<NodeView>
    decreases s,
{
    if s.len() == 0 {
        Seq::empty()
    } else {
        seq![hatch_map(s[0])] + hatch_forest(s.drop_first())
    }
}

proof fn lemma_hatch_forest_pointwise(s: Seq<NodeView>)
    ensures
        hatch_forest(s).len() == s.len(),
        forall|i: int| 0 <= i < s.len() ==> hatch_forest(s)[i] == hatch_map(#[trigger] s[i]),
    decreases s,
{
    if s.len() > 0 {
        lemma_hatch_forest_pointwise(s.drop_first());
        assert forall|i: int|
            0 <= i < s.len() implies hatch_forest(s)[i] == hatch_map(#[trigger] s[i]) by {
            if i > 0 {
                assert(s.drop_first()[i - 1] == s[i]);
                assert(hatch_forest(s)[i] == hatch_forest(s.drop_first())[i - 1]);
            }
        }
    }
}

/// The fish-hatch tick is the hatch rule applied at every node.
pub proof fn lemma_hatch_tick_nodewise(n: NodeView)
    ensures
        tick_spec(n, Tick::FishHatch).0 == hatch_map(n),
        tick_spec(n, Tick::FishHatch).1 == Seq::<Seq<char>>::empty(),
    decreases n,
{
    lemma_hatch_tick_forest(n.children);
    lemma_hatch_forest_pointwise(n.children);
    assert(hatch_rule(n).salmon + Seq::<SalmonView>::empty() =~= hatch_rule(n).salmon);
    assert(tick_node(n, Tick::FishHatch).0 =~= hatch_map(n));
    assert(tick_node(n, Tick::FishHatch).1.map_values(|s: SalmonView| s.name) =~= Seq::<
        Seq<char>,
    >::empty());
}

proof fn lemma_hatch_tick_forest(s: Seq<NodeView>)
    ensures
        tick_forest(s, Tick::FishHatch).0 == hatch_forest(s),
        tick_forest(s, Tick::FishHatch).1 == Seq::<SalmonView>::empty(),
    decreases s,
{
    if s.len() == 0 {
    } else {
        lemma_hatch_tick_nodewise(s[0]);
        lemma_hatch_tick_forest(s.drop_first());
        assert(tick_node(s[0], Tick::FishHatch).1 =~= Seq::<SalmonView>::empty());
        assert(tick_forest(s, Tick::FishHatch).1 =~= Seq::<SalmonView>::empty());
        assert(tick_forest(s, Tick::FishHatch).0 =~= hatch_forest(s));
    }
}

/// A fish-hatch tick changes no flag, so the power query is sustained by
/// the tick itself.
proof fn lemma_hatch_preserves_power(n: NodeView)
    ensures
        hatch_map(n).spec_is_powered() == n.spec_is_powered(),
    decreases n,
{
    lemma_hatch_forest_preserves_power(n.children);
}

proof fn lemma_hatch_forest_preserves_power(s: Seq<NodeView>)
    ensures
        forest_is_powered(hatch_forest(s)) == forest_is_powered(s),
    decreases s,
{
    if s.len() > 0 {
        lemma_hatch_forest_pointwise(s);
        lemma_hatch_preserves_power(s[0]);
        lemma_hatch_forest_preserves_power(s.drop_first());
        assert(hatch_forest(s)[0] == hatch_map(s[0]));
        assert(hatch_forest(s).drop_first() =~= hatch_forest(s.drop_first()));
    }
}

/// A hatchery produces one new salmon per fish-hatch tick exactly when
/// the power query holds as the tick visits it, and repeated ticks each
/// add one more — the tick changes no flag, so power, once present, is
/// sustained. The same holds of every node further down.
pub proof fn lemma_hatchery_grows_monotonically(n: NodeView, k: nat)
    ensures
        ticked(n, Tick::FishHatch, k).salmon.len() == n.salmon.len() + (if n.node_type is Hatchery
            && n.spec_is_powered() {
            k
        } else {
            0
        }),
        ticked(n, Tick::FishHatch, k).node_type == n.node_type,
        ticked(n, Tick::FishHatch, k).spec_is_powered() == n.spec_is_powered(),
        ticked(n, Tick::FishHatch, k).children.len() == n.children.len(),
        forall|i: int|
            0 <= i < n.children.len() ==> ticked(n, Tick::FishHatch, k).children[i] == ticked(
                #[trigger] n.children[i],
                Tick::FishHatch,
                k,
            ),
    decreases k,
{
    if k > 0 {
        let m = ticked(n, Tick::FishHatch, (k - 1) as nat);
        lemma_hatchery_grows_monotonically(n, (k - 1) as nat);
        lemma_hatch_tick_nodewise(m);
        lemma_hatch_preserves_power(m);
        lemma_hatch_forest_pointwise(m.children);
        assert forall|i: int|
            0 <= i < n.children.len() implies ticked(n, Tick::FishHatch, k).children[i] == ticked(
            #[trigger] n.children[i],
            Tick::FishHatch,
            k,
        ) by {
            let c = ticked(n.children[i], Tick::FishHatch, (k - 1) as nat);
            assert(m.children[i] == c);
            assert(hatch_map(m).children[i] == hatch_map(c));
            lemma_hatch_tick_nodewise(c);
        }
    }
}

/// A filter that keeps every element returns the sequence unchanged.
proof fn lemma_filter_keeps_all(s: Seq<SalmonView>, pred: spec_fn(SalmonView) -> bool)
    requires
        forall|i: int| 0 <= i < s.len() ==> pred(#[trigger] s[i]),
    ensures
        s.filter(pred) == s,
    decreases s.len(),
{
    broadcast use Seq::lemma_filter_push;

    if s.len() > 0 {
        let rest = s.drop_last();
        assert forall|i: int| 0 <= i < rest.len() implies pred(#[trigger] rest[i]) by {
            assert(rest[i] == s[i]);
        }
        lemma_filter_keeps_all(rest, pred);
        assert(s =~= rest.push(s.last()));
        assert(pred(s.last()));
        assert(rest.push(s.last()).filter(pred) == rest.filter(pred).push(s.last()));
        assert(rest.filter(pred).push(s.last()) =~= s);
    }
}

/// A salmon flagged downstream at the root is caught by a fish-down tick:
/// it leaves the tree, and its name is emitted exactly once, in arrival
/// order with the other salmon caught by the same tick. The salmon that
/// stay keep their order, ahead of whatever arrives from the children.
pub proof fn lemma_downstream_caught_fifo(n: NodeView)
    requires
        !delay_active(n.node_type),
    ensures
        tick_spec(n, Tick::FishDown).1 == n.salmon.filter(
            |s: SalmonView| s.direction is Downstream,
        ).map_values(|s: SalmonView| s.name),
        tick_spec(n, Tick::FishDown).0.salmon.take(
            n.salmon.filter(|s: SalmonView| !(s.direction is Downstream)).len() as int,
        ) == n.salmon.filter(|s: SalmonView| !(s.direction is Downstream)),
{
    let kept = n.salmon.filter(|s: SalmonView| !(s.direction is Downstream));
    let gained = tick_forest(n.children, Tick::FishDown).1;
    assert((kept + gained).take(kept.len() as int) =~= kept);
}

/// A fresh shallows or rapids blocks exactly two fish-movement ticks,
/// whatever their directions: each of the two ticks only spends one unit
/// of delay and moves nothing through the node or out of the tree, and
/// after the second the delay is exhausted.
pub proof fn lemma_delay_blocks_exactly_two(n: NodeView, t1: Tick, t2: Tick)
    requires
        n.node_type == NodeTypeView::Shallows(2) || n.node_type == NodeTypeView::Rapids(2),
        t1 is FishDown || t1 is FishUp,
        t2 is FishDown || t2 is FishUp,
    ensures
        ({
            let n1 = tick_spec(n, t1).0;
            let n2 = tick_spec(n1, t2).0;
            &&& tick_spec(n, t1).1 == Seq::<Seq<char>>::empty()
            &&& n1.salmon.take(n.salmon.len() as int) == n.salmon
            &&& delay_active(n1.node_type)
            &&& tick_spec(n1, t2).1 == Seq::<Seq<char>>::empty()
            &&& n2.salmon.take(n1.salmon.len() as int) == n1.salmon
            &&& !delay_active(n2.node_type)
        }),
{
    let n1 = tick_spec(n, t1).0;
    lemma_delay_tick_spends(n, t1);
    lemma_delay_tick_spends(n1, t2);
}

/// One fish-movement tick at a node whose delay is charged spends one
/// unit and moves nothing through the node.
proof fn lemma_delay_tick_spends(n: NodeView, t: Tick)
    requires
        delay_active(n.node_type),
        t is FishDown || t is FishUp,
    ensures
        tick_spec(n, t).1 == Seq::<Seq<char>>::empty(),
        tick_spec(n, t).0.salmon.take(n.salmon.len() as int) == n.salmon,
        tick_spec(n, t).0.node_type == spend_delay(n.node_type),
{
    if t is FishDown {
        let gained = tick_forest(n.children, t).1;
        assert((n.salmon + gained).take(n.salmon.len() as int) =~= n.salmon);
        assert(tick_node(n, t).1.map_values(|s: SalmonView| s.name) =~= Seq::<Seq<char>>::empty());
    } else {
        lemma_fish_up_forest_no_expel(n.children);
        let m = NodeView {
            children: tick_forest(n.children, t).0,
            salmon: n.salmon + tick_forest(n.children, t).1,
            ..n
        };
        assert(m.salmon =~= n.salmon);
        assert(tick_node(n, t).0.salmon.take(n.salmon.len() as int) =~= n.salmon);
        assert(tick_node(n, t).1.map_values(|s: SalmonView| s.name) =~= Seq::<Seq<char>>::empty());
    }
}

/// A node whose delay is spent never blocks again: fish-movement ticks
/// leave its counter where it is.
pub proof fn lemma_spent_delay_never_blocks(n: NodeView, t: Tick)
    requires
        !delay_active(n.node_type),
        t is FishDown || t is FishUp,
    ensures
        tick_spec(n, t).0.node_type == n.node_type,
        !delay_active(tick_spec(n, t).0.node_type),
{
}

/// A fish-up tick expels nothing from any tree of a forest.
proof fn lemma_fish_up_forest_no_expel(s: Seq<NodeView>)
    ensures
        tick_forest(s, Tick::FishUp).1 == Seq::<SalmonView>::empty(),
        tick_forest(s, Tick::FishUp).0.len() == s.len(),
        forall|c: int|
            0 <= c < s.len() ==> tick_forest(s, Tick::FishUp).0[c].very_block_salmon == (
            #[trigger] s[c]).very_block_salmon,
    decreases s,
{
    if s.len() > 0 {
        lemma_fish_up_forest_no_expel(s.drop_first());
        lemma_tick_forest_pointwise(s, Tick::FishUp);
        assert(tick_node(s[0], Tick::FishUp).1 =~= Seq::<SalmonView>::empty());
        assert(tick_forest(s, Tick::FishUp).1 =~= Seq::<SalmonView>::empty());
        assert forall|c: int|
            0 <= c < s.len() implies tick_forest(s, Tick::FishUp).0[c].very_block_salmon == (
        #[trigger] s[c]).very_block_salmon by {
            assert(tick_forest(s, Tick::FishUp).0[c] == tick_node(s[c], Tick::FishUp).0);
        }
    }
}

/// When every child of a node refuses arriving salmon, a fish-up tick
/// moves nothing out of the node: its salmon are exactly as before, and
/// its children still refuse arrivals.
proof fn lemma_fish_up_all_blocked(n: NodeView)
    requires
        forall|c: int| 0 <= c < n.children.len() ==> (#[trigger] n.children[c]).very_block_salmon,
    ensures
        tick_spec(n, Tick::FishUp).0.salmon == n.salmon,
        tick_spec(n, Tick::FishUp).0.children.len() == n.children.len(),
        forall|c: int|
            0 <= c < n.children.len() ==> (#[trigger] tick_spec(
                n,
                Tick::FishUp,
            ).0.children[c]).very_block_salmon,
{
    lemma_fish_up_forest_no_expel(n.children);
    lemma_tick_forest_pointwise(n.children, Tick::FishUp);
    let kids = tick_forest(n.children, Tick::FishUp).0;
    let m = NodeView { children: kids, salmon: n.salmon + tick_forest(n.children, Tick::FishUp).1, ..n };
    assert(m.salmon =~= n.salmon);
    assert forall|c: int|
        0 <= c < m.children.len() implies (#[trigger] m.children[c]).very_block_salmon by {
        assert(m.children[c].very_block_salmon == n.children[c].very_block_salmon);
    }
    if delay_active(m.node_type) {
    } else if m.block_salmon {
    } else {
        lemma_first_open_child(m.children);
        assert(first_open_child(m.children) is None);
        assert forall|i: int| 0 <= i < m.salmon.len() implies !moves_up(m, #[trigger] m.salmon[i]) by {
            lemma_find_path(m.children, m.salmon[i].name);
            match spec_find_path(m.children, m.salmon[i].name) {
                Some(c) => {
                    assert(m.children[c].very_block_salmon);
                    assert(dest_for(m, m.salmon[i].name) == first_open_child(m.children));
                },
                None => {},
            }
        }
        lemma_filter_keeps_all(m.salmon, |s: SalmonView| !moves_up(m, s));
        assert(fish_up_move(m).salmon == n.salmon);
        assert forall|c: int|
            0 <= c < n.children.len() implies (#[trigger] fish_up_move(
            m,
        ).children[c]).very_block_salmon by {
            assert(fish_up_move(m).children[c] == child_after_up(m, c));
        }
    }
}

/// An upstream salmon whose name no node of the tree bears, at a node all
/// of whose children refuse arriving salmon, stays at that node through
/// any number of fish-up ticks: it is never moved and never lost, because
/// no tick gives it a destination and no tick changes the flags that
/// refuse it one.
pub proof fn lemma_stranded_upstream_salmon_stays(n: NodeView, i: int, k: nat)
    requires
        0 <= i < n.salmon.len(),
        n.salmon[i].direction is Upstream,
        forall|c: int| 0 <= c < n.children.len() ==> (#[trigger] n.children[c]).very_block_salmon,
        forall|c: int|
            0 <= c < n.children.len() ==> !(#[trigger] n.children[c]).contains_name(
                n.salmon[i].name,
            ),
    ensures
        ticked(n, Tick::FishUp, k).salmon == n.salmon,
        ticked(n, Tick::FishUp, k).children.len() == n.children.len(),
        forall|c: int|
            0 <= c < n.children.len() ==> (#[trigger] ticked(
                n,
                Tick::FishUp,
                k,
            ).children[c]).very_block_salmon,
    decreases k,
{
    if k > 0 {
        lemma_stranded_upstream_salmon_stays(n, i, (k - 1) as nat);
        lemma_fish_up_all_blocked(ticked(n, Tick::FishUp, (k - 1) as nat));
    }
}

} // verus!
