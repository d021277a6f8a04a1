//! What the codecs read back from what they write: a value of the depth a
//! schema states comes back whole, under either codec.

use vstd::prelude::*;

use crate::codec::{
    all_conform, conforms, grouped, la_groups, la_items, la_tree,
    la_words, leaves,
    literal_words, qn_items, qn_read_items, qn_read_literal, qn_word, qn_words, width_digits,
    width_of, BashCodec, Fault, LinkedArr, QuotedNest, Schema, Tree,
};
use crate::emit::{array_text, decimal_text, q_words_text};
use crate::laws::{law_q_words_round_trip, lemma_decimal_text};
use crate::parser::{trim_end_spaces, trim_spaces, trim_start_spaces};

verus! {

// ---- QuotedNest ---------------------------------------------------------------

/// A literal `emit_literal` wrote reads back as the words it was written from.
pub proof fn lemma_literal_words(ws: Seq<Seq<char>>)
    ensures
        literal_words(array_text(ws)) == Ok::<Seq<Seq<char>>, Fault>(ws),
{
    let x = array_text(ws);
    assert(x[0] == '(');
    assert(x.last() == ')');
    assert(trim_start_spaces(x) == x);
    assert(trim_end_spaces(x) == x);
    assert(trim_spaces(x) == x);
    assert(x.subrange(1, x.len() - 1) =~= q_words_text(ws));
    law_q_words_round_trip(ws);
}

/// At one level every item is a string, and is its own word.
proof fn lemma_qn_leaves(items: Seq<Tree>)
    requires
        all_conform(items, 0),
    ensures
        leaves(qn_items(items)) == items,
    decreases items.len(),
{
    if items.len() > 0 {
        let last = items.last();
        assert(conforms(last, 0));
        assert(last is Leaf);
        lemma_qn_leaves(items.drop_last());
        let q = qn_items(items.drop_last());
        assert(qn_items(items) == q.push(qn_word(last)));
        assert(Tree::Leaf(qn_word(last)) == last);
        assert(leaves(q.push(qn_word(last))) =~= leaves(q).push(last));
        assert(items.drop_last().push(last) =~= items);
    }
}

/// Each item's literal reads back as the item.
proof fn lemma_qn_items_read(items: Seq<Tree>, e: nat)
    requires
        e >= 1,
        all_conform(items, e),
    ensures
        qn_read_items(qn_items(items), e) == Ok::<Seq<Tree>, Fault>(items),
    decreases items,
{
    if items.len() > 0 {
        let last = items.last();
        assert(conforms(last, e));
        assert(last is Node);
        lemma_qn_items_read(items.drop_last(), e);
        let q = qn_items(items);
        assert(q == qn_items(items.drop_last()).push(qn_word(last)));
        assert(q.drop_last() =~= qn_items(items.drop_last()));
        assert(q.last() == qn_word(last));
        assert(qn_word(last) == array_text(qn_words(last)));
        lemma_literal_words(qn_words(last));
        law_qn_round_trip(last, e);
        assert(qn_read_literal(q.last(), e) == Ok::<Tree, Fault>(last));
        assert(items.drop_last().push(last) =~= items);
        assert(qn_read_items(q, e) == Ok::<Seq<Tree>, Fault>(items.drop_last().push(last)));
    } else {
        assert(qn_items(items) =~= Seq::<Seq<char>>::empty());
        assert(items =~= Seq::<Tree>::empty());
    }
}

/// `QuotedNest.parse(QuotedNest.emit(v), s)` gives `v` back, for every value
/// of the depth `s` states.
pub proof fn law_qn_round_trip(t: Tree, d: nat)
    requires
        conforms(t, d),
    ensures
        QuotedNest.unflatten(QuotedNest.flatten(t), d) == Ok::<Tree, Fault>(t),
    decreases t,
{
    match t {
        Tree::Leaf(w) => {},
        Tree::Node(items) => {
            if d == 1 {
                lemma_qn_leaves(items);
            } else {
                lemma_qn_items_read(items, (d - 1) as nat);
            }
        },
    }
}

/// What a `QuotedNest` value reads as `d` levels deep: the outer `d` levels
/// as arrays, and at the last of them each inner array still as its literal.
pub open spec fn qn_peel(t: Tree, d: nat) -> Tree
    decreases t,
{
    match t {
        Tree::Leaf(w) => Tree::Leaf(w),
        Tree::Node(items) => if d <= 1 {
            Tree::Node(leaves(qn_items(items)))
        } else {
            Tree::Node(qn_peel_items(items, (d - 1) as nat))
        },
    }
}

/// Each item peeled `d` levels deep.
pub open spec fn qn_peel_items(items: Seq<Tree>, d: nat) -> Seq<Tree>
    decreases items,
{
    if items.len() == 0 {
        seq![]
    } else {
        qn_peel_items(items.drop_last(), d).push(qn_peel(items.last(), d))
    }
}

/// Each item's literal, read `d` levels deep, is the item peeled.
proof fn lemma_qn_items_peel(items: Seq<Tree>, e: nat, d: nat)
    requires
        1 <= d <= e,
        all_conform(items, e),
    ensures
        qn_read_items(qn_items(items), d) == Ok::<Seq<Tree>, Fault>(qn_peel_items(items, d)),
    decreases items,
{
    if items.len() > 0 {
        let last = items.last();
        assert(conforms(last, e));
        assert(last is Node);
        lemma_qn_items_peel(items.drop_last(), e, d);
        let q = qn_items(items);
        assert(q == qn_items(items.drop_last()).push(qn_word(last)));
        assert(q.drop_last() =~= qn_items(items.drop_last()));
        assert(q.last() == qn_word(last));
        assert(qn_word(last) == array_text(qn_words(last)));
        lemma_literal_words(qn_words(last));
        law_qn_peel(last, e, d);
        assert(qn_read_literal(q.last(), d) == Ok::<Tree, Fault>(qn_peel(last, d)));
    } else {
        assert(qn_items(items) =~= Seq::<Seq<char>>::empty());
        assert(qn_peel_items(items, d) =~= Seq::<Tree>::empty());
    }
}

/// Reading a `QuotedNest` value at a depth `d` short of the `e` it was
/// written at is a peel, not a refusal: the outer `d` levels come back as
/// arrays, with the inner literals intact as their strings.
pub proof fn law_qn_peel(t: Tree, e: nat, d: nat)
    requires
        conforms(t, e),
        1 <= d <= e,
    ensures
        QuotedNest.unflatten(QuotedNest.flatten(t), d) == Ok::<Tree, Fault>(qn_peel(t, d)),
    decreases t,
{
    match t {
        Tree::Leaf(w) => {},
        Tree::Node(items) => {
            if d >= 2 {
                lemma_qn_items_peel(items, (e - 1) as nat, (d - 1) as nat);
            }
        },
    }
}

// ---- LinkedArr ----------------------------------------------------------------

/// One item's words, behind its width where the items are groups.
pub open spec fn group_words(x: Tree, nested: bool) -> Seq<Seq<char>> {
    (if nested {
        seq![decimal_text(la_words(x).len())]
    } else {
        seq![]
    }) + la_words(x)
}

/// The items' words are the first item's, then the rest's.
proof fn lemma_la_items_front(items: Seq<Tree>, nested: bool)
    requires
        items.len() > 0,
    ensures
        la_items(items, nested) == group_words(items[0], nested) + la_items(items.drop_first(), nested),
    decreases items.len(),
{
    if items.len() == 1 {
        assert(items.drop_first() =~= Seq::<Tree>::empty());
        assert(items.drop_last() =~= Seq::<Tree>::empty());
        assert(la_items(items, nested) =~= group_words(items[0], nested));
        assert(group_words(items[0], nested) + Seq::<Seq<char>>::empty() =~= group_words(items[0], nested));
    } else {
        lemma_la_items_front(items.drop_last(), nested);
        assert(items.drop_first().drop_last() =~= items.drop_last().drop_first());
        assert(items.drop_first().last() == items.last());
        assert(items.drop_last()[0] == items[0]);
        assert(la_items(items, nested) =~= group_words(items[0], nested) + la_items(items.drop_first(), nested));
    }
}

/// At one level every item is a string, and is its own word.
proof fn lemma_la_leaves(items: Seq<Tree>)
    requires
        all_conform(items, 0),
    ensures
        leaves(la_items(items, false)) == items,
    decreases items.len(),
{
    if items.len() > 0 {
        assert(conforms(items.last(), 0));
        assert(items.last() is Leaf);
        lemma_la_leaves(items.drop_last());
        assert(la_words(items.last()) == seq![items.last()->Leaf_0]);
        assert(leaves(la_items(items, false)) =~= leaves(la_items(items.drop_last(), false)).push(
            items.last(),
        ));
        assert(items.drop_last().push(items.last()) =~= items);
    }
}

/// A width written in decimal reads back as the width.
proof fn lemma_width_reads(n: nat)
    requires
        n <= usize::MAX,
    ensures
        width_of(decimal_text(n)) == Some(n),
{
    lemma_decimal_text(n);
    let d = decimal_text(n);
    assert(d[0] != '+');
    assert(width_digits(d) == d);
}

/// Whatever stands before them, the groups of conforming items read back as
/// the items.
proof fn lemma_la_groups_read(pre: Seq<Seq<char>>, items: Seq<Tree>, e: nat)
    requires
        e >= 1,
        all_conform(items, e),
        pre.len() + la_items(items, true).len() <= usize::MAX,
    ensures
        la_groups(pre + la_items(items, true), pre.len() as int, e) == Ok::<Seq<Tree>, Fault>(items),
    decreases items,
{
    let ws = pre + la_items(items, true);
    if items.len() == 0 {
        assert(la_items(items, true) =~= Seq::<Seq<char>>::empty());
        assert(ws.len() == pre.len());
        assert(items =~= Seq::<Tree>::empty());
    } else {
        let x = items[0];
        let rest = items.drop_first();
        lemma_la_items_front(items, true);
        lemma_all_conform_front(items, e);
        let body = la_words(x);
        let n = body.len();
        lemma_width_reads(n);
        let b: int = pre.len() + 1int;
        assert(ws[pre.len() as int] == decimal_text(n));
        assert(ws.subrange(b, b + n as int) =~= body);
        assert(la_items(items, true).len() == 1 + n + la_items(rest, true).len());
        law_la_round_trip(x, e);
        assert(la_tree(body, e) == Ok::<Tree, Fault>(x));
        let pre2 = pre + group_words(x, true);
        assert(ws =~= pre2 + la_items(rest, true));
        assert(pre2.len() == b + n);
        lemma_la_groups_read(pre2, rest, e);
        assert(la_groups(ws, b + n, e) == Ok::<Seq<Tree>, Fault>(rest));
        assert(seq![x] + rest =~= items);
        assert(la_groups(ws, pre.len() as int, e) == Ok::<Seq<Tree>, Fault>(seq![x] + rest));
    }
}

/// The first item conforms, and so do the rest.
proof fn lemma_all_conform_front(items: Seq<Tree>, e: nat)
    requires
        items.len() > 0,
        all_conform(items, e),
    ensures
        conforms(items[0], e),
        all_conform(items.drop_first(), e),
    decreases items.len(),
{
    if items.len() > 1 {
        lemma_all_conform_front(items.drop_last(), e);
        assert(items.drop_first().drop_last() =~= items.drop_last().drop_first());
        assert(items.drop_first().last() == items.last());
    } else {
        assert(items.drop_first() =~= Seq::<Tree>::empty());
    }
}

/// `LinkedArr.parse(LinkedArr.emit(v), s)` gives `v` back, for every value of
/// the depth `s` states whose words a `Vec` can count.
pub proof fn law_la_round_trip(t: Tree, d: nat)
    requires
        conforms(t, d),
        LinkedArr.flatten(t).len() <= usize::MAX,
    ensures
        LinkedArr.unflatten(LinkedArr.flatten(t), d) == Ok::<Tree, Fault>(t),
    decreases t,
{
    match t {
        Tree::Leaf(w) => {},
        Tree::Node(items) => {
            if d == 1 {
                if items.len() > 0 {
                    lemma_all_conform_front(items, 0);
                }
                lemma_la_leaves(items);
            } else {
                let e = (d - 1) as nat;
                if items.len() > 0 {
                    lemma_all_conform_front(items, e);
                    assert(grouped(items));
                }
                lemma_la_groups_read(Seq::<Seq<char>>::empty(), items, e);
                assert(Seq::<Seq<char>>::empty() + la_items(items, true) =~= la_items(items, true));
                if items.len() == 0 {
                    assert(la_items(items, grouped(items)) =~= la_items(items, true));
                }
            }
        },
    }
}

// ---- one dimension ----------------------------------------------------------------

/// At one dimension both codecs write a row as its own words, so the two
/// write the same literal, and it is `emit_array`'s.
pub proof fn law_one_dimension_same(ws: Seq<Seq<char>>)
    ensures
        QuotedNest.flatten(Tree::Node(leaves(ws))) == ws,
        LinkedArr.flatten(Tree::Node(leaves(ws))) == ws,
    decreases ws.len(),
{
    let ls = leaves(ws);
    assert(!grouped(ls));
    if ws.len() > 0 {
        law_one_dimension_same(ws.drop_last());
        let dl = ws.drop_last();
        assert(ls.drop_last() =~= leaves(dl));
        assert(ls.last() == Tree::Leaf(ws.last()));
        assert(!grouped(leaves(dl)) || dl.len() == 0);
        assert(qn_items(leaves(dl)) == dl);
        assert(qn_items(ls) == qn_items(ls.drop_last()).push(qn_word(ls.last())));
        assert(qn_word(ls.last()) == ws.last());
        assert(qn_items(ls) == qn_items(leaves(dl)).push(ws.last()));
        assert(dl.push(ws.last()) =~= ws);
        assert(la_items(leaves(dl), grouped(leaves(dl))) == dl);
        assert(la_items(leaves(dl), false) == dl) by {
            if dl.len() == 0 {
                assert(la_items(leaves(dl), false) =~= dl);
            }
        }
        assert(la_words(ls.last()) == seq![ws.last()]);
        assert(la_items(ls, false) =~= la_items(leaves(dl), false) + seq![ws.last()]);
        assert(dl + seq![ws.last()] =~= ws);
    } else {
        assert(qn_items(ls) =~= ws);
        assert(la_items(ls, false) =~= ws);
    }
}

/// A schema is fixed by its depth: two of one depth are the same schema, so
/// `n_d(n)` is `n` levels of `Arr` around `Scalar`.
pub proof fn law_depth_determines(a: Schema, b: Schema)
    requires
        a.depth() == b.depth(),
    ensures
        a == b,
    decreases a,
{
    match a {
        Schema::Scalar => {},
        Schema::Arr(x) => match b {
            Schema::Arr(y) => {
                law_depth_determines(*x, *y);
            },
            Schema::Scalar => {},
        },
    }
}

} // verus!
