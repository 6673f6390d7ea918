//! Which forms of a class are found.

use super::forms::{
    child_forms, choices, class_forms, continued, forms_upto, id_texts, node_forms, renderings,
    text_le, with_all, with_new,
};
use super::lang::{Id, Language};
use super::model::Model;
use crate::text::decimal;
use vstd::prelude::*;

verus! {

/// The order of the dictionary: a text comes no later than another one if the
/// other one goes on from it, or if it has the smaller character where the two
/// differ first.
pub proof fn law_dictionary_order(a: Seq<char>, b: Seq<char>)
    ensures
        text_le(a, b) <==> a.is_prefix_of(b) || exists|i: int|
            0 <= i < a.len() && i < b.len() && (#[trigger] a[i] as int) < (b[i] as int) && a.take(i)
                == b.take(i),
    decreases a.len(),
{
    if a.len() == 0 {
        assert(a =~= b.take(0));
    } else if b.len() > 0 {
        if a[0] != b[0] {
            assert(!a.is_prefix_of(b)) by {
                if a.is_prefix_of(b) {
                    assert(a[0] == b.take(a.len() as int)[0]);
                }
            }
            if (a[0] as int) < (b[0] as int) {
                assert(a.take(0) =~= b.take(0));
            }
            if exists|i: int|
                0 <= i < a.len() && i < b.len() && (#[trigger] a[i] as int) < (b[i] as int)
                    && a.take(i) == b.take(i) {
                let i = choose|i: int|
                    0 <= i < a.len() && i < b.len() && (#[trigger] a[i] as int) < (b[i] as int)
                        && a.take(i) == b.take(i);
                if i > 0 {
                    assert(a.take(i)[0] == b.take(i)[0]);
                }
            }
        } else {
            let (x, y) = (a.drop_first(), b.drop_first());
            law_dictionary_order(x, y);
            assert(a.is_prefix_of(b) <==> x.is_prefix_of(y)) by {
                if a.is_prefix_of(b) {
                    assert(x =~= y.take(x.len() as int)) by {
                        assert forall|i: int| 0 <= i < x.len() implies x[i] == y[i] by {
                            assert(a[i + 1] == b.take(a.len() as int)[i + 1]);
                        }
                    }
                }
                if x.is_prefix_of(y) {
                    assert forall|i: int| 0 <= i < a.len() implies a[i] == b[i] by {
                        if i > 0 {
                            assert(x[i - 1] == y.take(x.len() as int)[i - 1]);
                        }
                    }
                    assert(a =~= b.take(a.len() as int));
                }
            }
            if exists|i: int|
                0 <= i < x.len() && i < y.len() && (#[trigger] x[i] as int) < (y[i] as int)
                    && x.take(i) == y.take(i) {
                let i = choose|i: int|
                    0 <= i < x.len() && i < y.len() && (#[trigger] x[i] as int) < (y[i] as int)
                        && x.take(i) == y.take(i);
                assert(a[i + 1] == x[i] && b[i + 1] == y[i]);
                assert(a.take(i + 1) =~= b.take(i + 1)) by {
                    assert forall|k: int| 0 <= k < i + 1 implies a[k] == b[k] by {
                        if k > 0 {
                            assert(x.take(i)[k - 1] == y.take(i)[k - 1]);
                        }
                    }
                }
            }
            if exists|i: int|
                0 <= i < a.len() && i < b.len() && (#[trigger] a[i] as int) < (b[i] as int)
                    && a.take(i) == b.take(i) {
                let i = choose|i: int|
                    0 <= i < a.len() && i < b.len() && (#[trigger] a[i] as int) < (b[i] as int)
                        && a.take(i) == b.take(i);
                assert(x[i - 1] == a[i] && y[i - 1] == b[i]);
                assert(x.take(i - 1) =~= y.take(i - 1)) by {
                    assert forall|k: int| 0 <= k < i - 1 implies x[k] == y[k] by {
                        assert(a.take(i)[k + 1] == b.take(i)[k + 1]);
                    }
                }
            }
        }
    }
}

/// `text` is a form of the class `root`, down to `depth`: it renders one of the
/// e-nodes of the class over a form of each child class or, where the depth is
/// used up, over the names of the child classes.
pub open spec fn is_form<L: Language>(m: Model<L>, root: Id, depth: nat, text: Seq<char>) -> bool
    decreases depth, 1nat,
{
    exists|k: int|
        #![trigger m.nodes[root.at()][k]]
        0 <= k < m.nodes[root.at()].len() && renders(m, m.nodes[root.at()][k], depth, text)
}

/// `text` renders the e-node `node` over forms or names of its child classes.
pub open spec fn renders<L: Language>(m: Model<L>, node: L, depth: nat, text: Seq<char>) -> bool
    decreases depth, 0nat,
{
    if node.kids().len() == 0 {
        text == node.rendered(Seq::empty())
    } else if depth == 0 {
        text == node.rendered(
            Seq::new(
                node.kids().len(),
                |j: int| "c"@ + decimal(m.roots[node.kids()[j].at()].0 as nat),
            ),
        )
    } else {
        exists|parts: Seq<Seq<char>>|
            #![trigger node.rendered(parts)]
            {
                &&& parts.len() == node.kids().len()
                &&& text == node.rendered(parts)
                &&& forall|j: int|
                    #![trigger parts[j]]
                    0 <= j < parts.len() ==> is_form(
                        m,
                        m.roots[node.kids()[j].at()],
                        (depth - 1) as nat,
                        parts[j],
                    )
            }
    }
}

/// Continuing every prefix by every item.
proof fn lemma_continued<T>(prefixes: Seq<Seq<T>>, list: Seq<T>)
    ensures
        forall|combo: Seq<T>| #[trigger]
            continued(prefixes, list).contains(combo) <==> combo.len() > 0 && prefixes.contains(
                combo.drop_last(),
            ) && list.contains(combo.last()),
    decreases prefixes.len(),
{
    let all = continued(prefixes, list);
    if prefixes.len() == 0 {
        assert forall|combo: Seq<T>| !(#[trigger] all.contains(combo)) by {}
    } else {
        let (less, prefix) = (prefixes.drop_last(), prefixes.last());
        lemma_continued(less, list);
        let rest = continued(less, list);
        let more = Seq::new(list.len(), |j: int| prefix.push(list[j]));
        assert(all == rest + more);
        assert forall|combo: Seq<T>| #[trigger]
            all.contains(combo) <==> combo.len() > 0 && prefixes.contains(combo.drop_last())
                && list.contains(combo.last()) by {
            if all.contains(combo) {
                let i = choose|i: int| 0 <= i < all.len() && all[i] == combo;
                if i < rest.len() {
                    assert(rest.contains(rest[i]));
                    let p = choose|p: int|
                        0 <= p < less.len() && less[p] == combo.drop_last();
                    assert(prefixes[p] == combo.drop_last());
                } else {
                    let j = i - rest.len();
                    assert(combo == prefix.push(list[j]));
                    assert(combo.drop_last() =~= prefix);
                    assert(prefixes[prefixes.len() - 1] == prefix);
                    assert(list.contains(list[j]));
                }
            }
            if combo.len() > 0 && prefixes.contains(combo.drop_last()) && list.contains(
                combo.last(),
            ) {
                let p = choose|p: int|
                    0 <= p < prefixes.len() && prefixes[p] == combo.drop_last();
                let j = choose|j: int| 0 <= j < list.len() && list[j] == combo.last();
                if p < less.len() {
                    assert(less[p] == combo.drop_last());
                    assert(rest.contains(combo));
                    let i = choose|i: int| 0 <= i < rest.len() && rest[i] == combo;
                    assert(all[i] == combo);
                } else {
                    assert(combo =~= prefix.push(list[j]));
                    assert(more[j] == combo);
                    assert(all[rest.len() + j] == combo);
                }
            }
        }
    }
}

/// The ways to take one item of each list are exactly the lists that hold, at
/// every place, an item of the list there.
proof fn lemma_choices<T>(lists: Seq<Seq<T>>)
    ensures
        forall|combo: Seq<T>| #[trigger]
            choices(lists).contains(combo) <==> combo.len() == lists.len() && forall|j: int|
                #![trigger combo[j]]
                0 <= j < combo.len() ==> lists[j].contains(combo[j]),
    decreases lists.len(),
{
    let all = choices(lists);
    if lists.len() == 0 {
        assert forall|combo: Seq<T>| #[trigger]
            all.contains(combo) <==> combo.len() == lists.len() && forall|j: int|
                #![trigger combo[j]]
                0 <= j < combo.len() ==> lists[j].contains(combo[j]) by {
            if combo.len() == 0 {
                assert(combo =~= Seq::empty());
                assert(all[0] == combo);
            }
        }
    } else {
        let less = lists.drop_last();
        lemma_choices(less);
        lemma_continued(choices(less), lists.last());
        assert forall|combo: Seq<T>| #[trigger]
            all.contains(combo) <==> combo.len() == lists.len() && forall|j: int|
                #![trigger combo[j]]
                0 <= j < combo.len() ==> lists[j].contains(combo[j]) by {
            if combo.len() > 0 {
                let front = combo.drop_last();
                if all.contains(combo) {
                    assert(choices(less).contains(front));
                    assert forall|j: int| #![trigger combo[j]] 0 <= j < combo.len() implies lists[j].contains(
                    combo[j]) by {
                        if j < front.len() {
                            assert(front[j] == combo[j]);
                            assert(less[j].contains(front[j]));
                        }
                    }
                }
                if combo.len() == lists.len() && forall|j: int|
                    #![trigger combo[j]]
                    0 <= j < combo.len() ==> lists[j].contains(combo[j]) {
                    assert forall|j: int| #![trigger front[j]] 0 <= j < front.len() implies less[j].contains(
                    front[j]) by {
                        assert(front[j] == combo[j]);
                        assert(lists[j].contains(combo[j]));
                    }
                    assert(choices(less).contains(front));
                    assert(lists[combo.len() - 1].contains(combo[combo.len() - 1]));
                }
            }
        }
    }
}

/// What is in a list to which values were added: nothing but what was there and
/// the values, and all of that while it is not full.
proof fn lemma_with_all(out: Seq<Seq<char>>, values: Seq<Seq<char>>, max: nat)
    ensures
        out.len() <= with_all(out, values, max).len(),
        forall|v: Seq<char>| #[trigger]
            with_all(out, values, max).contains(v) ==> out.contains(v) || values.contains(v),
        forall|v: Seq<char>|
            out.contains(v) ==> #[trigger] with_all(out, values, max).contains(v),
        with_all(out, values, max).len() < max ==> forall|v: Seq<char>|
            values.contains(v) ==> #[trigger] with_all(out, values, max).contains(v),
    decreases values.len(),
{
    if values.len() > 0 {
        let less = values.drop_last();
        let value = values.last();
        lemma_with_all(out, less, max);
        let (had, now) = (with_all(out, less, max), with_all(out, values, max));
        assert(now == with_new(had, value, max));
        assert forall|v: Seq<char>| #[trigger] now.contains(v) implies out.contains(v)
            || values.contains(v) by {
            let i = choose|i: int| 0 <= i < now.len() && now[i] == v;
            if i < had.len() {
                assert(had[i] == v);
                assert(had.contains(v));
                if less.contains(v) {
                    let k = choose|k: int| 0 <= k < less.len() && less[k] == v;
                    assert(values[k] == v);
                }
            } else {
                assert(values[values.len() - 1] == v);
            }
        }
        assert forall|v: Seq<char>| had.contains(v) implies #[trigger] now.contains(v) by {
            let i = choose|i: int| 0 <= i < had.len() && had[i] == v;
            assert(now[i] == v);
        }
        if now.len() < max {
            assert forall|v: Seq<char>| values.contains(v) implies #[trigger] now.contains(v) by {
                let k = choose|k: int| 0 <= k < values.len() && values[k] == v;
                if k < less.len() {
                    assert(less[k] == v);
                    assert(less.contains(v));
                    assert(had.contains(v));
                } else if !had.contains(v) {
                    assert(now[now.len() - 1] == v);
                }
            }
        }
    }
}

/// The lists of no class are full, at no depth up to `depth`.
pub open spec fn never_full<L: Language>(m: Model<L>, depth: nat, max: nat) -> bool {
    forall|id: Id, d: nat|
        m.has(id) && d <= depth ==> (#[trigger] class_forms(m, id, d, max)).len() < max
}

/// The texts of a node are what it renders, all of it where no list is full.
proof fn lemma_node_forms<L: Language>(m: Model<L>, node: L, depth: nat, max: nat, text: Seq<char>)
    requires
        m.shape(),
        m.knows(node),
    ensures
        node_forms(m, node, depth, max).contains(text) ==> renders(m, node, depth, text),
        never_full(m, depth, max) && renders(m, node, depth, text) ==> node_forms(
            m,
            node,
            depth,
            max,
        ).contains(text),
    decreases depth, 0nat,
{
    let forms = node_forms(m, node, depth, max);
    let kids = node.kids();
    if kids.len() == 0 {
        assert(forms[0] == node.rendered(Seq::empty()));
    } else if depth == 0 {
        let names = Seq::new(kids.len(), |j: int| "c"@ + decimal(m.roots[kids[j].at()].0 as nat));
        assert(id_texts(m, kids) =~= names);
        assert(forms[0] == node.rendered(names));
    } else {
        let less = (depth - 1) as nat;
        let lists = child_forms(m, kids, less, max);
        let combos = choices(lists);
        assert(forms == renderings(node, combos));
        lemma_choices(lists);
        if forms.contains(text) {
            let i = choose|i: int| 0 <= i < forms.len() && forms[i] == text;
            let parts = combos[i];
            assert(combos.contains(parts));
            assert(text == node.rendered(parts));
            assert forall|j: int| #![trigger parts[j]] 0 <= j < parts.len() implies is_form(
                m,
                m.roots[kids[j].at()],
                less,
                parts[j],
            ) by {
                assert(lists[j].contains(parts[j]));
                assert(m.has(kids[j]));
                lemma_class_forms(m, m.roots[kids[j].at()], less, max, parts[j]);
            }
        }
        if never_full(m, depth, max) && renders(m, node, depth, text) {
            let parts = choose|parts: Seq<Seq<char>>|
                #![trigger node.rendered(parts)]
                {
                    &&& parts.len() == kids.len()
                    &&& text == node.rendered(parts)
                    &&& forall|j: int|
                        #![trigger parts[j]]
                        0 <= j < parts.len() ==> is_form(m, m.roots[kids[j].at()], less, parts[j])
                };
            assert forall|j: int| #![trigger parts[j]] 0 <= j < parts.len() implies lists[j].contains(
            parts[j]) by {
                assert(m.has(kids[j]));
                assert(never_full(m, less, max));
                lemma_class_forms(m, m.roots[kids[j].at()], less, max, parts[j]);
            }
            assert(combos.contains(parts));
            let i = choose|i: int| 0 <= i < combos.len() && combos[i] == parts;
            assert(forms[i] == text);
        }
    }
}

proof fn lemma_class_forms<L: Language>(m: Model<L>, root: Id, depth: nat, max: nat, text: Seq<char>)
    requires
        m.shape(),
        m.has(root),
    ensures
        class_forms(m, root, depth, max).contains(text) ==> is_form(m, root, depth, text),
        never_full(m, depth, max) && is_form(m, root, depth, text) ==> class_forms(
            m,
            root,
            depth,
            max,
        ).contains(text),
    decreases depth, 2nat,
{
    let n = m.nodes[root.at()].len();
    lemma_forms_upto(m, root, depth, max, n, text);
    if never_full(m, depth, max) && is_form(m, root, depth, text) {
        assert(class_forms(m, root, depth, max).len() < max);
    }
}

proof fn lemma_forms_upto<L: Language>(
    m: Model<L>,
    root: Id,
    depth: nat,
    max: nat,
    n: nat,
    text: Seq<char>,
)
    requires
        m.shape(),
        m.has(root),
        n <= m.nodes[root.at()].len(),
    ensures
        forms_upto(m, root, depth, max, n).contains(text) ==> is_form(m, root, depth, text),
        never_full(m, depth, max) && forms_upto(m, root, depth, max, n).len() < max && (exists|
            k: int,
        |
            #![trigger m.nodes[root.at()][k]]
            0 <= k < n && renders(m, m.nodes[root.at()][k], depth, text)) ==> forms_upto(
            m,
            root,
            depth,
            max,
            n,
        ).contains(text),
    decreases depth, 1nat, n,
{
    if n > 0 {
        let less = (n - 1) as nat;
        let node = m.nodes[root.at()][n - 1];
        assert(m.knows(node));
        lemma_forms_upto(m, root, depth, max, less, text);
        lemma_node_forms(m, node, depth, max, text);
        let (had, values) = (
            forms_upto(m, root, depth, max, less),
            node_forms(m, node, depth, max),
        );
        lemma_with_all(had, values, max);
        let now = forms_upto(m, root, depth, max, n);
        assert(now == with_all(had, values, max));
        if now.contains(text) && values.contains(text) {
            assert(renders(m, m.nodes[root.at()][n - 1], depth, text));
        }
        if never_full(m, depth, max) && now.len() < max && exists|k: int|
            #![trigger m.nodes[root.at()][k]]
            0 <= k < n && renders(m, m.nodes[root.at()][k], depth, text) {
            let k = choose|k: int|
                #![trigger m.nodes[root.at()][k]]
                0 <= k < n && renders(m, m.nodes[root.at()][k], depth, text);
            if k < less {
                assert(had.contains(text));
            } else {
                assert(values.contains(text));
            }
        }
    }
}

/// The forms that are shown are forms of the class; and as long as no list
/// reaches the number of forms that were asked for, all of them are shown.
pub proof fn law_forms_are_all<L: Language>(
    m: Model<L>,
    root: Id,
    depth: nat,
    max: nat,
    text: Seq<char>,
)
    requires
        m.shape(),
        m.has(root),
    ensures
        class_forms(m, root, depth, max).contains(text) ==> is_form(m, root, depth, text),
        never_full(m, depth, max) ==> (is_form(m, root, depth, text) <==> class_forms(
            m,
            root,
            depth,
            max,
        ).contains(text)),
{
    lemma_class_forms(m, root, depth, max, text);
}

/// Fewer forms than were asked for are shown only where there are no more: what
/// an e-node renders over forms that are shown for its child classes, or over
/// their names where the depth is used up, is shown too, unless the list is
/// full.
pub proof fn law_forms_until_full<L: Language>(
    m: Model<L>,
    root: Id,
    depth: nat,
    max: nat,
    k: int,
    parts: Seq<Seq<char>>,
)
    requires
        m.shape(),
        m.has(root),
        0 <= k < m.nodes[root.at()].len(),
        parts.len() == m.nodes[root.at()][k].kids().len(),
        forall|j: int|
            #![trigger parts[j]]
            0 <= j < parts.len() ==> if depth == 0 {
                parts[j] == "c"@ + decimal(
                    m.roots[m.nodes[root.at()][k].kids()[j].at()].0 as nat,
                )
            } else {
                class_forms(
                    m,
                    m.roots[m.nodes[root.at()][k].kids()[j].at()],
                    (depth - 1) as nat,
                    max,
                ).contains(parts[j])
            },
    ensures
        class_forms(m, root, depth, max).len() == max || class_forms(
            m,
            root,
            depth,
            max,
        ).contains(m.nodes[root.at()][k].rendered(parts)),
{
    let node = m.nodes[root.at()][k];
    let kids = node.kids();
    let text = node.rendered(parts);
    let forms = node_forms(m, node, depth, max);
    assert(forms.contains(text)) by {
        if kids.len() == 0 {
            assert(parts =~= Seq::empty());
            assert(forms[0] == text);
        } else if depth == 0 {
            assert(id_texts(m, kids) =~= parts) by {
                assert forall|j: int| 0 <= j < parts.len() implies id_texts(m, kids)[j]
                    == parts[j] by {}
            }
            assert(forms[0] == text);
        } else {
            let lists = child_forms(m, kids, (depth - 1) as nat, max);
            lemma_choices(lists);
            assert forall|j: int| #![trigger parts[j]] 0 <= j < parts.len() implies lists[j].contains(
            parts[j]) by {}
            assert(choices(lists).contains(parts));
            let i = choose|i: int| 0 <= i < choices(lists).len() && choices(lists)[i] == parts;
            assert(forms[i] == text);
        }
    }
    super::forms::law_forms_distinct(m, root, depth, max);
    lemma_stays_shown(m, root, depth, max, k, m.nodes[root.at()].len(), text);
}

/// What one e-node contributes is still there after the others, unless the list
/// is full.
proof fn lemma_stays_shown<L: Language>(
    m: Model<L>,
    root: Id,
    depth: nat,
    max: nat,
    k: int,
    n: nat,
    text: Seq<char>,
)
    requires
        0 <= k < n <= m.nodes[root.at()].len(),
        node_forms(m, m.nodes[root.at()][k], depth, max).contains(text),
    ensures
        forms_upto(m, root, depth, max, n).len() >= max || forms_upto(
            m,
            root,
            depth,
            max,
            n,
        ).contains(text),
    decreases n,
{
    let less = (n - 1) as nat;
    let (had, values) = (
        forms_upto(m, root, depth, max, less),
        node_forms(m, m.nodes[root.at()][n - 1], depth, max),
    );
    lemma_with_all(had, values, max);
    if k < less {
        lemma_stays_shown(m, root, depth, max, k, less, text);
    }
}

/// The forms of the e-nodes that are stored first are found first, and a list
/// only grows.
pub proof fn law_first_forms_first<L: Language>(
    m: Model<L>,
    root: Id,
    depth: nat,
    max: nat,
    n: nat,
)
    ensures
        forms_upto(m, root, depth, max, n).is_prefix_of(forms_upto(m, root, depth, max, n + 1)),
        forms_upto(m, root, depth, max, 0).len() == 0,
        class_forms(m, root, depth, max) == forms_upto(
            m,
            root,
            depth,
            max,
            m.nodes[root.at()].len(),
        ),
{
    assert(((n + 1) as nat - 1) as nat == n);
    lemma_prefix(
        forms_upto(m, root, depth, max, n),
        node_forms(m, m.nodes[root.at()][n as int], depth, max),
        max,
    );
}

proof fn lemma_prefix(out: Seq<Seq<char>>, values: Seq<Seq<char>>, max: nat)
    ensures
        out.is_prefix_of(with_all(out, values, max)),
    decreases values.len(),
{
    if values.len() > 0 {
        lemma_prefix(out, values.drop_last(), max);
        let had = with_all(out, values.drop_last(), max);
        let now = with_all(out, values, max);
        assert(out =~= now.take(out.len() as int)) by {
            assert(out == had.take(out.len() as int));
            assert forall|i: int| 0 <= i < out.len() implies out[i] == now[i] by {
                assert(out[i] == had.take(out.len() as int)[i]);
            }
        }
    }
}

} // verus!
