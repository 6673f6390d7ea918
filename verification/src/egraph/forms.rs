//! The distinct rendered terms that an e-class represents.

use super::lang::{texts, Id, Language};
use super::model::Model;
use super::{ClassData, EGraph};
use crate::text::{decimal, push_decimal};
use vstd::prelude::*;
use vstd::relations::{sorted_by, total_ordering};
use vstd::string::StringExecFns;

verus! {

// ---------------------------------------------------------------------------
// The order of texts.
// ---------------------------------------------------------------------------

/// `a` comes no later than `b` in the dictionary: character by character, in
/// the order of their code points.
pub open spec fn text_le(a: Seq<char>, b: Seq<char>) -> bool
    decreases a.len(),
{
    if a.len() == 0 {
        true
    } else if b.len() == 0 {
        false
    } else if a[0] != b[0] {
        (a[0] as int) < (b[0] as int)
    } else {
        text_le(a.drop_first(), b.drop_first())
    }
}

/// The dictionary order.
pub open spec fn text_order() -> spec_fn(Seq<char>, Seq<char>) -> bool {
    |a: Seq<char>, b: Seq<char>| text_le(a, b)
}

proof fn lemma_text_reflexive(a: Seq<char>)
    ensures
        text_le(a, a),
    decreases a.len(),
{
    if a.len() > 0 {
        lemma_text_reflexive(a.drop_first());
    }
}

proof fn lemma_text_total(a: Seq<char>, b: Seq<char>)
    ensures
        text_le(a, b) || text_le(b, a),
        text_le(a, b) && text_le(b, a) ==> a == b,
    decreases a.len(),
{
    if a.len() > 0 && b.len() > 0 {
        if a[0] == b[0] {
            lemma_text_total(a.drop_first(), b.drop_first());
            if text_le(a, b) && text_le(b, a) {
                assert(a =~= seq![a[0]] + a.drop_first());
                assert(b =~= seq![b[0]] + b.drop_first());
            }
        }
    } else if a.len() == 0 && b.len() == 0 {
        assert(a =~= b);
    }
}

proof fn lemma_text_transitive(a: Seq<char>, b: Seq<char>, c: Seq<char>)
    requires
        text_le(a, b),
        text_le(b, c),
    ensures
        text_le(a, c),
    decreases a.len(),
{
    if a.len() > 0 && b.len() > 0 && c.len() > 0 && a[0] == b[0] && b[0] == c[0] {
        lemma_text_transitive(a.drop_first(), b.drop_first(), c.drop_first());
    }
}

/// The dictionary order is a total order.
pub proof fn lemma_text_order()
    ensures
        total_ordering(text_order()),
{
    let le = text_order();
    assert forall|a: Seq<char>| #[trigger] le(a, a) by {
        lemma_text_reflexive(a);
    }
    assert forall|a: Seq<char>, b: Seq<char>| #[trigger] le(a, b) && #[trigger] le(b, a) implies a
        == b by {
        lemma_text_total(a, b);
    }
    assert forall|a: Seq<char>, b: Seq<char>| #[trigger] le(a, b) || #[trigger] le(b, a) by {
        lemma_text_total(a, b);
    }
    assert forall|a: Seq<char>, b: Seq<char>, c: Seq<char>| #[trigger]
        le(a, b) && #[trigger] le(b, c) implies le(a, c) by {
        lemma_text_transitive(a, b, c);
    }
}

/// `slice::sort` of std, on strings: it rearranges them so that they ascend in
/// the order of `String`, which is the dictionary order by code points.
#[verifier::external_body]
fn sort_strings(list: &mut Vec<String>)
    ensures
        texts(final(list)@).to_multiset() == texts(old(list)@).to_multiset(),
        sorted_by(texts(final(list)@), text_order()),
{
    list.sort();
}

// ---------------------------------------------------------------------------
// The terms of a class.
// ---------------------------------------------------------------------------

/// `out` with `value` behind it, if that is new and there are fewer than `max`.
pub open spec fn with_new(out: Seq<Seq<char>>, value: Seq<char>, max: nat) -> Seq<Seq<char>> {
    if out.len() < max && !out.contains(value) {
        out.push(value)
    } else {
        out
    }
}

/// `out` with each of `values`, one after the other.
pub open spec fn with_all(out: Seq<Seq<char>>, values: Seq<Seq<char>>, max: nat) -> Seq<Seq<char>>
    decreases values.len(),
{
    if values.len() == 0 {
        out
    } else {
        with_new(with_all(out, values.drop_last(), max), values.last(), max)
    }
}

/// Each of `prefixes` continued by each item of `list`.
pub open spec fn continued<T>(prefixes: Seq<Seq<T>>, list: Seq<T>) -> Seq<Seq<T>>
    decreases prefixes.len(),
{
    if prefixes.len() == 0 {
        Seq::empty()
    } else {
        continued(prefixes.drop_last(), list) + Seq::new(
            list.len(),
            |j: int| prefixes.last().push(list[j]),
        )
    }
}

/// All ways to take one item of each list.
pub open spec fn choices<T>(lists: Seq<Seq<T>>) -> Seq<Seq<T>>
    decreases lists.len(),
{
    if lists.len() == 0 {
        seq![Seq::empty()]
    } else {
        continued(choices(lists.drop_last()), lists.last())
    }
}

/// How a child is shown where it is not expanded: the letter `c` and the id of
/// its class.
pub open spec fn id_text(id: Id) -> Seq<char> {
    "c"@ + decimal(id.0 as nat)
}

/// The names of the classes of `kids`.
pub open spec fn id_texts<L: Language>(m: Model<L>, kids: Seq<Id>) -> Seq<Seq<char>> {
    Seq::new(kids.len(), |i: int| id_text(m.root(kids[i])))
}

/// The texts of a node over all the given parts.
pub open spec fn renderings<L: Language>(node: L, parts: Seq<Seq<Seq<char>>>) -> Seq<Seq<char>> {
    Seq::new(parts.len(), |i: int| node.rendered(parts[i]))
}

/// The texts that one node stands for: over the terms of its child classes,
/// down to `depth`, and over the names of the classes below that.
pub open spec fn node_forms<L: Language>(m: Model<L>, node: L, depth: nat, max: nat) -> Seq<
    Seq<char>,
>
    decreases depth, 0nat, 0nat,
{
    if node.kids().len() == 0 {
        seq![node.rendered(Seq::empty())]
    } else if depth == 0 {
        seq![node.rendered(id_texts(m, node.kids()))]
    } else {
        renderings(node, choices(child_forms(m, node.kids(), (depth - 1) as nat, max)))
    }
}

/// The terms of the class of each of `kids`.
pub open spec fn child_forms<L: Language>(
    m: Model<L>,
    kids: Seq<Id>,
    depth: nat,
    max: nat,
) -> Seq<Seq<Seq<char>>>
    decreases depth, 3nat, 0nat,
{
    Seq::new(kids.len(), |i: int| class_forms(m, m.root(kids[i]), depth, max))
}

/// The first `max` distinct texts of the first `n` nodes of a class.
pub open spec fn forms_upto<L: Language>(
    m: Model<L>,
    root: Id,
    depth: nat,
    max: nat,
    n: nat,
) -> Seq<Seq<char>>
    decreases depth, 1nat, n,
{
    if n == 0 {
        Seq::empty()
    } else {
        with_all(
            forms_upto(m, root, depth, max, (n - 1) as nat),
            node_forms(m, m.nodes[root.at()][n - 1], depth, max),
            max,
        )
    }
}

/// The first `max` distinct texts of the terms of a class, down to `depth`.
pub open spec fn class_forms<L: Language>(m: Model<L>, root: Id, depth: nat, max: nat) -> Seq<
    Seq<char>,
>
    decreases depth, 2nat, 0nat,
{
    forms_upto(m, root, depth, max, m.nodes[root.at()].len())
}

/// A list that is full stays as it is.
proof fn lemma_full(out: Seq<Seq<char>>, values: Seq<Seq<char>>, max: nat)
    requires
        out.len() >= max,
    ensures
        with_all(out, values, max) == out,
    decreases values.len(),
{
    if values.len() > 0 {
        lemma_full(out, values.drop_last(), max);
    }
}

/// Once a list is full, the values that follow add nothing.
proof fn lemma_stop(out: Seq<Seq<char>>, values: Seq<Seq<char>>, max: nat, k: int)
    requires
        0 <= k <= values.len(),
        with_all(out, values.take(k), max).len() >= max,
    ensures
        with_all(out, values, max) == with_all(out, values.take(k), max),
    decreases values.len() - k,
{
    if k == values.len() {
        assert(values.take(k) =~= values);
    } else {
        let more = values.take(k + 1);
        assert(more.drop_last() =~= values.take(k));
        lemma_stop(out, values, max, k + 1);
    }
}

/// Once a list is full, the nodes that follow add nothing.
proof fn lemma_stop_nodes<L: Language>(
    m: Model<L>,
    root: Id,
    depth: nat,
    max: nat,
    k: nat,
    n: nat,
)
    requires
        k <= n,
        forms_upto(m, root, depth, max, k).len() >= max,
    ensures
        forms_upto(m, root, depth, max, n) == forms_upto(m, root, depth, max, k),
    decreases n - k,
{
    if k < n {
        lemma_stop_nodes(m, root, depth, max, k, (n - 1) as nat);
        lemma_full(
            forms_upto(m, root, depth, max, (n - 1) as nat),
            node_forms(m, m.nodes[root.at()][n - 1], depth, max),
            max,
        );
    }
}

/// Adding values keeps a list distinct and short.
proof fn lemma_with_all(out: Seq<Seq<char>>, values: Seq<Seq<char>>, max: nat)
    requires
        out.no_duplicates(),
        out.len() <= max,
    ensures
        with_all(out, values, max).no_duplicates(),
        with_all(out, values, max).len() <= max,
    decreases values.len(),
{
    if values.len() > 0 {
        lemma_with_all(out, values.drop_last(), max);
        let before = with_all(out, values.drop_last(), max);
        let value = values.last();
        if before.len() < max && !before.contains(value) {
            let now = before.push(value);
            assert forall|i: int, j: int|
                0 <= i < now.len() && 0 <= j < now.len() && i != j implies now[i] != now[j] by {
                if i == before.len() {
                    assert(before.contains(before[j]));
                } else if j == before.len() {
                    assert(before.contains(before[i]));
                }
            }
        }
    }
}

/// The forms of a class are distinct, and no more than asked for.
pub proof fn law_forms_distinct<L: Language>(m: Model<L>, root: Id, depth: nat, max: nat)
    ensures
        class_forms(m, root, depth, max).no_duplicates(),
        class_forms(m, root, depth, max).len() <= max,
{
    lemma_forms_upto(m, root, depth, max, m.nodes[root.at()].len());
}

proof fn lemma_forms_upto<L: Language>(m: Model<L>, root: Id, depth: nat, max: nat, n: nat)
    ensures
        forms_upto(m, root, depth, max, n).no_duplicates(),
        forms_upto(m, root, depth, max, n).len() <= max,
    decreases n,
{
    if n > 0 {
        lemma_forms_upto(m, root, depth, max, (n - 1) as nat);
        lemma_with_all(
            forms_upto(m, root, depth, max, (n - 1) as nat),
            node_forms(m, m.nodes[root.at()][n - 1], depth, max),
            max,
        );
    }
}

/// Push `value` into `out` if absent and capacity remains.
fn push_unique(out: &mut Vec<String>, value: String, max_terms: usize)
    ensures
        texts(final(out)@) == with_new(texts(old(out)@), value@, max_terms as nat),
{
    if out.len() >= max_terms {
        return ;
    }
    let mut i: usize = 0;
    while i < out.len()
        invariant
            out@ == old(out)@,
            i <= out@.len(),
            forall|j: int| #![trigger out@[j]] 0 <= j < i ==> out@[j]@ != value@,
        decreases out@.len() - i,
    {
        if out[i] == value {
            assert(texts(out@)[i as int] == value@);
            return ;
        }
        i = i + 1;
    }
    assert(!texts(out@).contains(value@)) by {
        assert forall|j: int| 0 <= j < texts(out@).len() implies texts(out@)[j] != value@ by {
            assert(out@[j]@ != value@);
        }
    }
    out.push(value);
    assert(texts(out@) =~= texts(old(out)@).push(value@));
}

/// The contents of a list of lists of strings.
spec fn all_texts(lists: Seq<Vec<String>>) -> Seq<Seq<Seq<char>>> {
    Seq::new(lists.len(), |i: int| texts(lists[i]@))
}

proof fn lemma_texts_push(list: Seq<String>, item: String)
    ensures
        texts(list.push(item)) == texts(list).push(item@),
{
    assert(texts(list.push(item)) =~= texts(list).push(item@));
}

proof fn lemma_all_texts_push(lists: Seq<Vec<String>>, list: Vec<String>)
    ensures
        all_texts(lists.push(list)) == all_texts(lists).push(texts(list@)),
{
    assert(all_texts(lists.push(list)) =~= all_texts(lists).push(texts(list@)));
}

/// `prefix` and one more item.
fn extended(prefix: &Vec<String>, item: &String) -> (combo: Vec<String>)
    ensures
        texts(combo@) == texts(prefix@).push(item@),
{
    let mut combo: Vec<String> = Vec::new();
    let mut i: usize = 0;
    assert(texts(combo@) =~= texts(prefix@).take(0));
    while i < prefix.len()
        invariant
            i <= prefix@.len(),
            texts(combo@) == texts(prefix@).take(i as int),
        decreases prefix@.len() - i,
    {
        let ghost before = combo@;
        let part = prefix[i].clone();
        combo.push(part);
        proof {
            lemma_texts_push(before, part);
            assert(texts(prefix@)[i as int] == part@);
        }
        i = i + 1;
        assert(texts(combo@) =~= texts(prefix@).take(i as int));
    }
    assert(texts(prefix@).take(i as int) =~= texts(prefix@));
    let ghost before = combo@;
    let last = item.clone();
    combo.push(last);
    proof {
        lemma_texts_push(before, last);
    }
    combo
}

/// Cartesian product of a list of string-choice lists.
fn cartesian(lists: &Vec<Vec<String>>) -> (combos: Vec<Vec<String>>)
    ensures
        all_texts(combos@) == choices(all_texts(lists@)),
{
    let ghost wanted = all_texts(lists@);
    let mut acc: Vec<Vec<String>> = Vec::new();
    acc.push(Vec::new());
    let mut i: usize = 0;
    assert(wanted.take(0).len() == 0);
    assert(texts(acc@[0]@) =~= Seq::<Seq<char>>::empty());
    assert(all_texts(acc@) =~= choices(wanted.take(0)));
    while i < lists.len()
        invariant
            wanted == all_texts(lists@),
            i <= lists@.len(),
            all_texts(acc@) == choices(wanted.take(i as int)),
        decreases lists@.len() - i,
    {
        let list = &lists[i];
        let ghost items = texts(list@);
        let ghost prefixes = all_texts(acc@);
        let mut next: Vec<Vec<String>> = Vec::new();
        let mut p: usize = 0;
        assert(prefixes.take(0).len() == 0);
        assert(all_texts(next@) =~= continued(prefixes.take(0), items));
        while p < acc.len()
            invariant
                items == texts(list@),
                prefixes == all_texts(acc@),
                p <= acc@.len(),
                all_texts(next@) == continued(prefixes.take(p as int), items),
            decreases acc@.len() - p,
        {
            let ghost before = all_texts(next@);
            let mut q: usize = 0;
            assert(all_texts(next@) =~= before + Seq::new(
                0,
                |j: int| prefixes[p as int].push(items[j]),
            ));
            while q < list.len()
                invariant
                    items == texts(list@),
                    prefixes == all_texts(acc@),
                    p < acc@.len(),
                    q <= list@.len(),
                    all_texts(next@) == before + Seq::new(
                        q as nat,
                        |j: int| prefixes[p as int].push(items[j]),
                    ),
                decreases list@.len() - q,
            {
                let ghost done = next@;
                let combo = extended(&acc[p], &list[q]);
                next.push(combo);
                proof {
                    lemma_all_texts_push(done, combo);
                    assert(prefixes[p as int] == texts(acc@[p as int]@));
                    assert(items[q as int] == list@[q as int]@);
                }
                q = q + 1;
                assert(all_texts(next@) =~= before + Seq::new(
                    q as nat,
                    |j: int| prefixes[p as int].push(items[j]),
                ));
            }
            p = p + 1;
            assert(prefixes.take(p as int).drop_last() =~= prefixes.take(p - 1));
            assert(prefixes.take(p as int).last() == prefixes[p - 1]);
            assert(all_texts(next@) =~= continued(prefixes.take(p as int), items));
        }
        assert(prefixes.take(p as int) =~= prefixes);
        acc = next;
        i = i + 1;
        assert(wanted.take(i as int).drop_last() =~= wanted.take(i - 1));
        assert(wanted.take(i as int).last() == items);
    }
    assert(wanted.take(i as int) =~= wanted);
    acc
}

/// The names of the classes of a node's children.
fn placeholders<L: Language, N: ClassData>(egraph: &EGraph<L, N>, node: &L) -> (names: Vec<String>)
    requires
        egraph.wf(),
        egraph.model().knows(*node),
    ensures
        texts(names@) == id_texts(egraph.model(), node.kids()),
{
    let ghost m = egraph.model();
    let mut names: Vec<String> = Vec::new();
    let mut i: usize = 0;
    assert(texts(names@) =~= id_texts(m, node.kids()).take(0));
    while i < node.children().len()
        invariant
            egraph.wf(),
            m == egraph.model(),
            m.knows(*node),
            i <= node.kids().len(),
            texts(names@) == id_texts(m, node.kids()).take(i as int),
        decreases node.kids().len() - i,
    {
        let child = node.children()[i];
        assert(node.kids()[i as int] == child);
        let id = egraph.canonical_id(child);
        let mut name: String = "c".to_owned();
        push_decimal(&mut name, id.0 as u64);
        let ghost before = names@;
        names.push(name);
        proof {
            lemma_texts_push(before, name);
            assert(id_texts(m, node.kids())[i as int] == name@);
        }
        i = i + 1;
        assert(texts(names@) =~= id_texts(m, node.kids()).take(i as int));
    }
    assert(id_texts(m, node.kids()).take(i as int) =~= id_texts(m, node.kids()));
    names
}

/// Recursively enumerate the distinct rendered terms represented by `class`,
/// up to `max_depth` levels deep and `max_terms` results.
pub(crate) fn enumerate_terms<L: Language, N: ClassData>(
    egraph: &EGraph<L, N>,
    class: Id,
    max_depth: usize,
    max_terms: usize,
) -> (results: Vec<String>)
    requires
        egraph.wf(),
        egraph.model().has(class),
    ensures
        texts(results@) == class_forms(
            egraph.model(),
            egraph.model().root(class),
            max_depth as nat,
            max_terms as nat,
        ),
    decreases max_depth, 1nat,
{
    let ghost m = egraph.model();
    let ghost max = max_terms as nat;
    let root = egraph.canonical_id(class);
    proof {
        egraph.lemma_ranged();
    }
    let nodes = egraph.nodes(class);
    let mut results: Vec<String> = Vec::new();
    let mut n: usize = 0;
    assert(texts(results@) =~= Seq::<Seq<char>>::empty());
    while n < nodes.len() && results.len() < max_terms
        invariant
            egraph.wf(),
            egraph.ranged(),
            m == egraph.model(),
            m.in_bounds(),
            max == max_terms,
            m.has(root),
            nodes@ == m.nodes[root.at()],
            n <= nodes@.len(),
            texts(results@) == forms_upto(m, root, max_depth as nat, max, n as nat),
        decreases nodes@.len() - n,
    {
        let node = &nodes[n];
        assert(m.knows(m.nodes[root.at()][n as int]));
        let ghost before = texts(results@);
        let ghost forms = node_forms(m, *node, max_depth as nat, max);
        if node.children().len() == 0 {
            let none: Vec<String> = Vec::new();
            assert(texts(none@) =~= Seq::<Seq<char>>::empty());
            push_unique(&mut results, node.display(none.as_slice()), max_terms);
            assert(with_all(before, forms.drop_last(), max) == before);
        } else if max_depth == 0 {
            let names = placeholders(egraph, node);
            push_unique(&mut results, node.display(names.as_slice()), max_terms);
            assert(with_all(before, forms.drop_last(), max) == before);
        } else {
            let combos = node_choices(egraph, node, max_depth, max_terms);
            let mut c: usize = 0;
            assert(forms.take(0).len() == 0);
            while c < combos.len() && results.len() < max_terms
                invariant
                    egraph.wf(),
                    m == egraph.model(),
                    max == max_terms,
                    c <= combos@.len(),
                    forms.len() == combos@.len(),
                    forall|i: int|
                        #![trigger forms[i]]
                        0 <= i < forms.len() ==> forms[i] == node.rendered(texts(combos@[i]@)),
                    texts(results@) == with_all(before, forms.take(c as int), max),
                decreases combos@.len() - c,
            {
                let text = node.display(combos[c].as_slice());
                assert(forms[c as int] == text@);
                push_unique(&mut results, text, max_terms);
                c = c + 1;
                assert(forms.take(c as int).drop_last() =~= forms.take(c - 1));
            }
            proof {
                if c < combos@.len() {
                    assert(texts(results@).len() == results@.len());
                    lemma_stop(before, forms, max, c as int);
                } else {
                    assert(forms.take(c as int) =~= forms);
                }
            }
        }
        n = n + 1;
    }
    proof {
        if n < nodes@.len() {
            assert(texts(results@).len() == results@.len());
            lemma_stop_nodes(m, root, max_depth as nat, max, n as nat, nodes@.len());
        }
    }
    results
}

/// All ways to expand the children of a node.
fn node_choices<L: Language, N: ClassData>(
    egraph: &EGraph<L, N>,
    node: &L,
    max_depth: usize,
    max_terms: usize,
) -> (combos: Vec<Vec<String>>)
    requires
        egraph.wf(),
        egraph.model().knows(*node),
        node.kids().len() > 0,
        max_depth > 0,
    ensures
        renderings(*node, all_texts(combos@)) == node_forms(
            egraph.model(),
            *node,
            max_depth as nat,
            max_terms as nat,
        ),
    decreases max_depth, 0nat,
{
    let ghost m = egraph.model();
    let ghost wanted = child_forms(m, node.kids(), (max_depth - 1) as nat, max_terms as nat);
    let mut lists: Vec<Vec<String>> = Vec::new();
    let mut i: usize = 0;
    assert(all_texts(lists@) =~= wanted.take(0));
    while i < node.children().len()
        invariant
            egraph.wf(),
            m == egraph.model(),
            m.knows(*node),
            max_depth > 0,
            i <= node.kids().len(),
            wanted == child_forms(m, node.kids(), (max_depth - 1) as nat, max_terms as nat),
            all_texts(lists@) == wanted.take(i as int),
        decreases node.kids().len() - i,
    {
        let child = node.children()[i];
        assert(node.kids()[i as int] == child);
        let ghost before = lists@;
        let list = enumerate_terms(egraph, child, max_depth - 1, max_terms);
        lists.push(list);
        proof {
            lemma_all_texts_push(before, list);
            assert(wanted[i as int] == texts(list@));
        }
        i = i + 1;
        assert(all_texts(lists@) =~= wanted.take(i as int));
    }
    assert(all_texts(lists@) =~= wanted);
    cartesian(&lists)
}

/// The distinct terms of a class in dictionary order.
pub(crate) fn sorted_forms<L: Language, N: ClassData>(
    egraph: &EGraph<L, N>,
    class: Id,
    max_depth: usize,
    max_terms: usize,
) -> (forms: Vec<String>)
    requires
        egraph.wf(),
        egraph.model().has(class),
    ensures
        texts(forms@) == class_forms(
            egraph.model(),
            egraph.model().root(class),
            max_depth as nat,
            max_terms as nat,
        ).sort_by(text_order()),
{
    let mut forms = enumerate_terms(egraph, class, max_depth, max_terms);
    let ghost found = texts(forms@);
    sort_strings(&mut forms);
    proof {
        lemma_text_order();
        found.lemma_sort_by_ensures(text_order());
        vstd::seq_lib::lemma_sorted_unique(
            texts(forms@),
            found.sort_by(text_order()),
            text_order(),
        );
    }
    forms
}

} // verus!
