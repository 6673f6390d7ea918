//! Render an [`EGraph`] as a Mermaid `flowchart`, using one `subgraph` per
//! e-class. E-nodes become nodes inside their class subgraph; a node's child
//! edges point at the child e-class subgraphs (labelled by operand index when
//! there is more than one child).
//!
//! The output is a `mermaid` code block body (no fences) suitable for pasting
//! into Markdown or a Mermaid live editor.

use super::forms::{class_forms, sorted_forms, text_order};
use super::lang::{texts, Id, Language};
use super::model::Model;
use super::readers::{listed, listing};
use super::{ClassData, EGraph};
use crate::text::{chars_of, decimal, push_decimal};
use vstd::prelude::*;
use vstd::string::StringExecFns;

verus! {

/// What stands for a character inside a quoted label.
pub open spec fn escaped_char(c: char) -> Seq<char> {
    if c == '&' {
        "&amp;"@
    } else if c == '<' {
        "&lt;"@
    } else if c == '>' {
        "&gt;"@
    } else if c == '"' {
        "&quot;"@
    } else {
        seq![c]
    }
}

/// A text inside a quoted label: the characters that would break it are
/// replaced.
pub open spec fn escaped(text: Seq<char>) -> Seq<char>
    decreases text.len(),
{
    if text.len() == 0 {
        Seq::empty()
    } else {
        escaped(text.drop_last()) + escaped_char(text.last())
    }
}

/// The number by which a class is shown: how many classes have a smaller id.
pub open spec fn position<L: Language>(m: Model<L>, id: Id) -> nat {
    listing(m, id.at() as nat).len()
}

/// The name of the class of `id`.
pub open spec fn class_name<L: Language>(m: Model<L>, id: Id) -> Seq<char> {
    "c"@ + decimal(position(m, m.root(id)))
}

/// The names of the classes of `kids`.
pub open spec fn class_names<L: Language>(m: Model<L>, kids: Seq<Id>) -> Seq<Seq<char>> {
    Seq::new(kids.len(), |i: int| class_name(m, kids[i]))
}

/// The name of a node: the number of its class, and its own number in it.
pub open spec fn node_name(class: nat, node: nat) -> Seq<char> {
    " n"@ + decimal(class) + "_"@ + decimal(node)
}

/// The lines of the first `n` nodes of a class.
pub open spec fn node_lines<L: Language>(m: Model<L>, class: nat, nodes: Seq<L>, n: nat) -> Seq<
    char,
>
    decreases n,
{
    if n == 0 {
        Seq::empty()
    } else {
        let node = nodes[n - 1];
        node_lines(m, class, nodes, (n - 1) as nat) + node_name(class, (n - 1) as nat) + "[\""@
            + escaped(node.rendered(class_names(m, node.kids()))) + "\"]\n"@
    }
}

/// The line that opens a class.
pub open spec fn class_line(class: nat) -> Seq<char> {
    " subgraph c"@ + decimal(class) + "[\"e-class "@ + decimal(class) + "\"]\n"@
}

/// The first `n` classes.
pub open spec fn class_blocks<L: Language>(
    m: Model<L>,
    classes: Seq<(Id, Seq<L>)>,
    n: nat,
) -> Seq<char>
    decreases n,
{
    if n == 0 {
        Seq::empty()
    } else {
        let class = (n - 1) as nat;
        let nodes = classes[n - 1].1;
        class_blocks(m, classes, class) + class_line(class) + node_lines(
            m,
            class,
            nodes,
            nodes.len(),
        ) + " end\n"@
    }
}

/// The arrow to the operand `arg`: labelled where there is more than one.
pub open spec fn arrow(kids: Seq<Id>, arg: nat) -> Seq<char> {
    if kids.len() > 1 {
        " -->|"@ + decimal(arg) + "| "@
    } else {
        " --> "@
    }
}

/// The edges to the first `n` children of a node.
pub open spec fn edge_lines<L: Language>(
    m: Model<L>,
    class: nat,
    node: nat,
    kids: Seq<Id>,
    n: nat,
) -> Seq<char>
    decreases n,
{
    if n == 0 {
        Seq::empty()
    } else {
        edge_lines(m, class, node, kids, (n - 1) as nat) + node_name(class, node) + arrow(
            kids,
            (n - 1) as nat,
        ) + class_name(m, kids[n - 1]) + "\n"@
    }
}

/// The edges of the first `n` nodes of a class.
pub open spec fn class_edges<L: Language>(m: Model<L>, class: nat, nodes: Seq<L>, n: nat) -> Seq<
    char,
>
    decreases n,
{
    if n == 0 {
        Seq::empty()
    } else {
        let kids = nodes[n - 1].kids();
        class_edges(m, class, nodes, (n - 1) as nat) + edge_lines(
            m,
            class,
            (n - 1) as nat,
            kids,
            kids.len(),
        )
    }
}

/// The edges of the first `n` classes.
pub open spec fn all_edges<L: Language>(m: Model<L>, classes: Seq<(Id, Seq<L>)>, n: nat) -> Seq<
    char,
>
    decreases n,
{
    if n == 0 {
        Seq::empty()
    } else {
        let nodes = classes[n - 1].1;
        all_edges(m, classes, (n - 1) as nat) + class_edges(
            m,
            (n - 1) as nat,
            nodes,
            nodes.len(),
        )
    }
}

/// The whole diagram: a heading, the classes, and the edges.
pub open spec fn flowchart<L: Language>(m: Model<L>) -> Seq<char> {
    let classes = listing(m, m.len());
    "flowchart TD\n"@ + class_blocks(m, classes, classes.len()) + all_edges(
        m,
        classes,
        classes.len(),
    )
}

/// The lines of the first `n` forms of a class.
pub open spec fn form_lines(id: Id, forms: Seq<Seq<char>>, n: nat) -> Seq<char>
    decreases n,
{
    if n == 0 {
        Seq::empty()
    } else {
        let class = decimal(id.0 as nat);
        let form = decimal((n - 1) as nat);
        form_lines(id, forms, (n - 1) as nat) + " f"@ + class + "_"@ + form + "[\""@ + escaped(
            forms[n - 1],
        ) + "\"]\n"@ + " class"@ + class + " --- f"@ + class + "_"@ + form + "\n"@
    }
}

/// The diagram of one class and the forms it stands for.
pub open spec fn forms_chart(id: Id, forms: Seq<Seq<char>>) -> Seq<char> {
    let class = decimal(id.0 as nat);
    "flowchart TD\n"@ + " class"@ + class + "([\"e-class "@ + class + " (equivalent forms)\"])\n"@
        + form_lines(id, forms, forms.len())
}

/// Write `text`, with the characters that break labels inside `["..."]`
/// replaced, behind `out`.
fn push_escaped(out: &mut String, text: &str)
    ensures
        final(out)@ == old(out)@ + escaped(text@),
{
    let chars = chars_of(text);
    let mut i: usize = 0;
    assert(text@.take(0).len() == 0);
    assert(out@ =~= old(out)@ + escaped(text@.take(0)));
    while i < chars.len()
        invariant
            chars@ == text@,
            i <= chars@.len(),
            out@ == old(out)@ + escaped(text@.take(i as int)),
        decreases chars@.len() - i,
    {
        let c = chars[i];
        if c == '&' {
            out.append("&amp;");
        } else if c == '<' {
            out.append("&lt;");
        } else if c == '>' {
            out.append("&gt;");
        } else if c == '"' {
            out.append("&quot;");
        } else {
            out.push(c);
        }
        i = i + 1;
        proof {
            assert(text@.take(i as int).drop_last() =~= text@.take(i - 1));
            assert(text@.take(i as int).last() == c);
            assert(out@ =~= old(out)@ + (escaped(text@.take(i - 1)) + escaped_char(c)));
        }
    }
    assert(text@.take(i as int) =~= text@);
}

/// An escaped text holds none of the characters that would break a label.
pub proof fn law_label_is_safe(text: Seq<char>, i: int)
    requires
        0 <= i < escaped(text).len(),
    ensures
        escaped(text)[i] != '<',
        escaped(text)[i] != '>',
        escaped(text)[i] != '"',
    decreases text.len(),
{
    if text.len() > 0 {
        let head = escaped(text.drop_last());
        if i < head.len() {
            law_label_is_safe(text.drop_last(), i);
        } else {
            reveal_strlit("&amp;");
            reveal_strlit("&lt;");
            reveal_strlit("&gt;");
            reveal_strlit("&quot;");
            assert(escaped(text)[i] == escaped_char(text.last())[i - head.len()]);
        }
    }
}

/// Write the name of a node behind `out`.
fn push_node_name(out: &mut String, class: usize, node: usize)
    ensures
        final(out)@ == old(out)@ + node_name(class as nat, node as nat),
{
    out.append(" n");
    push_decimal(out, class as u64);
    out.append("_");
    push_decimal(out, node as u64);
    assert(out@ =~= old(out)@ + node_name(class as nat, node as nat));
}

/// The numbers by which the classes are shown, for every id.
fn positions<L: Language, N: ClassData>(egraph: &EGraph<L, N>) -> (list: Vec<usize>)
    requires
        egraph.wf(),
    ensures
        list@.len() == egraph.model().len(),
        forall|id: Id| #[trigger]
            egraph.model().has(id) ==> list@[id.at()] == position(egraph.model(), id),
{
    let ghost m = egraph.model();
    proof {
        egraph.lemma_ranged();
    }
    let mut list: Vec<usize> = Vec::new();
    let mut count: usize = 0;
    let mut i: usize = 0;
    while i < egraph.id_count()
        invariant
            egraph.wf(),
            m == egraph.model(),
            m.len() <= u32::MAX + 1,
            i <= m.len(),
            count <= i,
            count == listing(m, i as nat).len(),
            list@.len() == i,
            forall|k: int|
                #![trigger list@[k]]
                0 <= k < i ==> list@[k] == listing(m, k as nat).len(),
        decreases m.len() - i,
    {
        list.push(count);
        let id = Id(i as u32);
        assert(m.has(id));
        if egraph.canonical_id(id) == id {
            count = count + 1;
        }
        i = i + 1;
    }
    list
}

/// The name of the class of `id`.
fn class_ref<L: Language, N: ClassData>(
    egraph: &EGraph<L, N>,
    list: &Vec<usize>,
    id: Id,
) -> (name: String)
    requires
        egraph.wf(),
        egraph.model().has(id),
        list@.len() == egraph.model().len(),
        forall|id: Id| #[trigger]
            egraph.model().has(id) ==> list@[id.at()] == position(egraph.model(), id),
    ensures
        name@ == class_name(egraph.model(), id),
{
    proof {
        egraph.lemma_safe();
    }
    let root = egraph.canonical_id(id);
    assert(egraph.model().has(root));
    let mut name: String = "c".to_owned();
    push_decimal(&mut name, list[root.0 as usize] as u64);
    name
}

/// The names of the classes of a node's children.
fn class_refs<L: Language, N: ClassData>(
    egraph: &EGraph<L, N>,
    list: &Vec<usize>,
    node: &L,
) -> (names: Vec<String>)
    requires
        egraph.wf(),
        egraph.model().knows(*node),
        list@.len() == egraph.model().len(),
        forall|id: Id| #[trigger]
            egraph.model().has(id) ==> list@[id.at()] == position(egraph.model(), id),
    ensures
        texts(names@) == class_names(egraph.model(), node.kids()),
{
    let ghost m = egraph.model();
    let ghost wanted = class_names(m, node.kids());
    let mut names: Vec<String> = Vec::new();
    let mut i: usize = 0;
    assert(texts(names@) =~= wanted.take(0));
    while i < node.children().len()
        invariant
            egraph.wf(),
            m == egraph.model(),
            m.knows(*node),
            list@.len() == m.len(),
            forall|id: Id| #[trigger] m.has(id) ==> list@[id.at()] == position(m, id),
            wanted == class_names(m, node.kids()),
            i <= node.kids().len(),
            texts(names@) == wanted.take(i as int),
        decreases node.kids().len() - i,
    {
        let child = node.children()[i];
        assert(node.kids()[i as int] == child);
        let ghost before = names@;
        let name = class_ref(egraph, list, child);
        names.push(name);
        proof {
            assert(texts(names@) =~= texts(before).push(name@));
            assert(wanted[i as int] == name@);
            assert(wanted.take(i + 1) =~= wanted.take(i as int).push(name@));
        }
        i = i + 1;
    }
    assert(wanted.take(i as int) =~= wanted);
    names
}

/// The nodes of a list of classes refer to known ids.
spec fn nodes_known<L: Language>(m: Model<L>, snapshot: Seq<(Id, Vec<L>)>) -> bool {
    forall|c: int, a: int|
        #![trigger snapshot[c].1@[a]]
        0 <= c < snapshot.len() && 0 <= a < snapshot[c].1@.len() ==> m.knows(snapshot[c].1@[a])
}

proof fn lemma_listing_known<L: Language>(m: Model<L>, n: nat)
    requires
        m.in_bounds(),
        n <= m.len(),
    ensures
        forall|c: int, a: int|
            #![trigger listing(m, n)[c].1[a]]
            0 <= c < listing(m, n).len() && 0 <= a < listing(m, n)[c].1.len() ==> m.knows(
                listing(m, n)[c].1[a],
            ),
    decreases n,
{
    if n > 0 {
        lemma_listing_known(m, (n - 1) as nat);
        let rest = listing(m, (n - 1) as nat);
        let list = listing(m, n);
        assert forall|c: int, a: int|
            #![trigger list[c].1[a]]
            0 <= c < list.len() && 0 <= a < list[c].1.len() implies m.knows(list[c].1[a]) by {
            if c < rest.len() {
                assert(rest[c].1[a] == list[c].1[a]);
            } else {
                assert(m.knows(m.nodes[n - 1][a]));
            }
        }
    }
}

/// Emit Mermaid `flowchart` source for `egraph`.
///
/// Every e-class is a `subgraph`; every e-node is a node whose label is the
/// operator applied to its child e-class references. Edges go from each e-node
/// to the subgraph of each child e-class.
pub fn to_mermaid<L: Language, N: ClassData>(egraph: &EGraph<L, N>) -> (out: String)
    requires
        egraph.wf(),
    ensures
        out@ == flowchart(egraph.model()),
{
    let ghost m = egraph.model();
    let snapshot = egraph.classes_snapshot();
    let ghost classes = listed(snapshot@);
    proof {
        egraph.lemma_ranged();
        lemma_listing_known(m, m.len());
        assert forall|c: int, a: int|
            #![trigger snapshot@[c].1@[a]]
            0 <= c < snapshot@.len() && 0 <= a < snapshot@[c].1@.len() implies m.knows(
            snapshot@[c].1@[a],
        ) by {
            assert(listing(m, m.len())[c].1[a] == snapshot@[c].1@[a]);
        }
    }
    let list = positions(egraph);
    let mut out: String = "flowchart TD\n".to_owned();
    push_classes(egraph, &list, &snapshot, &mut out);
    push_edges(egraph, &list, &snapshot, &mut out);
    out
}

/// Emit each e-class as a subgraph containing its e-nodes.
fn push_classes<L: Language, N: ClassData>(
    egraph: &EGraph<L, N>,
    list: &Vec<usize>,
    snapshot: &Vec<(Id, Vec<L>)>,
    out: &mut String,
)
    requires
        egraph.wf(),
        list@.len() == egraph.model().len(),
        forall|id: Id| #[trigger]
            egraph.model().has(id) ==> list@[id.at()] == position(egraph.model(), id),
        nodes_known(egraph.model(), snapshot@),
    ensures
        final(out)@ == old(out)@ + class_blocks(
            egraph.model(),
            listed(snapshot@),
            snapshot@.len(),
        ),
{
    let ghost m = egraph.model();
    let ghost classes = listed(snapshot@);
    let ghost start = out@;
    let mut ci: usize = 0;
    assert(out@ =~= start + class_blocks(m, classes, 0));
    while ci < snapshot.len()
        invariant
            egraph.wf(),
            m == egraph.model(),
            list@.len() == m.len(),
            forall|id: Id| #[trigger] m.has(id) ==> list@[id.at()] == position(m, id),
            nodes_known(m, snapshot@),
            classes == listed(snapshot@),
            start == old(out)@,
            ci <= snapshot@.len(),
            out@ == start + class_blocks(m, classes, ci as nat),
        decreases snapshot@.len() - ci,
    {
        let ghost before = out@;
        out.append(" subgraph c");
        push_decimal(out, ci as u64);
        out.append("[\"e-class ");
        push_decimal(out, ci as u64);
        out.append("\"]\n");
        assert(out@ =~= before + class_line(ci as nat));
        let nodes = &snapshot[ci].1;
        assert(nodes@ == classes[ci as int].1);
        let ghost opened = out@;
        let mut ni: usize = 0;
        assert(out@ =~= opened + node_lines(m, ci as nat, nodes@, 0));
        while ni < nodes.len()
            invariant
                egraph.wf(),
                m == egraph.model(),
                list@.len() == m.len(),
                forall|id: Id| #[trigger] m.has(id) ==> list@[id.at()] == position(m, id),
                nodes_known(m, snapshot@),
                ci < snapshot@.len(),
                nodes@ == snapshot@[ci as int].1@,
                ni <= nodes@.len(),
                out@ == opened + node_lines(m, ci as nat, nodes@, ni as nat),
            decreases nodes@.len() - ni,
        {
            let ghost here = out@;
            let node = &nodes[ni];
            assert(m.knows(snapshot@[ci as int].1@[ni as int]));
            let names = class_refs(egraph, list, node);
            let label = node.display(names.as_slice());
            push_node_name(out, ci, ni);
            out.append("[\"");
            push_escaped(out, label.as_str());
            out.append("\"]\n");
            ni = ni + 1;
            assert(out@ =~= opened + node_lines(m, ci as nat, nodes@, ni as nat));
        }
        out.append(" end\n");
        ci = ci + 1;
        assert(out@ =~= start + class_blocks(m, classes, ci as nat));
    }
}

/// Emit child edges from each e-node to the child e-class subgraphs.
fn push_edges<L: Language, N: ClassData>(
    egraph: &EGraph<L, N>,
    list: &Vec<usize>,
    snapshot: &Vec<(Id, Vec<L>)>,
    out: &mut String,
)
    requires
        egraph.wf(),
        list@.len() == egraph.model().len(),
        forall|id: Id| #[trigger]
            egraph.model().has(id) ==> list@[id.at()] == position(egraph.model(), id),
        nodes_known(egraph.model(), snapshot@),
    ensures
        final(out)@ == old(out)@ + all_edges(egraph.model(), listed(snapshot@), snapshot@.len()),
{
    let ghost m = egraph.model();
    let ghost classes = listed(snapshot@);
    let ghost start = out@;
    let mut ci: usize = 0;
    assert(out@ =~= start + all_edges(m, classes, 0));
    while ci < snapshot.len()
        invariant
            egraph.wf(),
            m == egraph.model(),
            list@.len() == m.len(),
            forall|id: Id| #[trigger] m.has(id) ==> list@[id.at()] == position(m, id),
            nodes_known(m, snapshot@),
            classes == listed(snapshot@),
            start == old(out)@,
            ci <= snapshot@.len(),
            out@ == start + all_edges(m, classes, ci as nat),
        decreases snapshot@.len() - ci,
    {
        let nodes = &snapshot[ci].1;
        assert(nodes@ == classes[ci as int].1);
        let ghost opened = out@;
        let mut ni: usize = 0;
        assert(out@ =~= opened + class_edges(m, ci as nat, nodes@, 0));
        while ni < nodes.len()
            invariant
                egraph.wf(),
                m == egraph.model(),
                list@.len() == m.len(),
                forall|id: Id| #[trigger] m.has(id) ==> list@[id.at()] == position(m, id),
                nodes_known(m, snapshot@),
                ci < snapshot@.len(),
                nodes@ == snapshot@[ci as int].1@,
                ni <= nodes@.len(),
                out@ == opened + class_edges(m, ci as nat, nodes@, ni as nat),
            decreases nodes@.len() - ni,
        {
            assert(m.knows(snapshot@[ci as int].1@[ni as int]));
            push_node_edges(egraph, list, ci, ni, &nodes[ni], out);
            ni = ni + 1;
            assert(out@ =~= opened + class_edges(m, ci as nat, nodes@, ni as nat));
        }
        ci = ci + 1;
        assert(out@ =~= start + all_edges(m, classes, ci as nat));
    }
}

/// Emit the child edges of one e-node.
fn push_node_edges<L: Language, N: ClassData>(
    egraph: &EGraph<L, N>,
    list: &Vec<usize>,
    ci: usize,
    ni: usize,
    node: &L,
    out: &mut String,
)
    requires
        egraph.wf(),
        egraph.model().knows(*node),
        list@.len() == egraph.model().len(),
        forall|id: Id| #[trigger]
            egraph.model().has(id) ==> list@[id.at()] == position(egraph.model(), id),
    ensures
        final(out)@ == old(out)@ + edge_lines(
            egraph.model(),
            ci as nat,
            ni as nat,
            node.kids(),
            node.kids().len(),
        ),
{
    let ghost m = egraph.model();
    let ghost kids = node.kids();
    let ghost start = out@;
    let mut arg: usize = 0;
    assert(out@ =~= start + edge_lines(m, ci as nat, ni as nat, kids, 0));
    while arg < node.children().len()
        invariant
            egraph.wf(),
            m == egraph.model(),
            m.knows(*node),
            list@.len() == m.len(),
            forall|id: Id| #[trigger] m.has(id) ==> list@[id.at()] == position(m, id),
            kids == node.kids(),
            start == old(out)@,
            arg <= kids.len(),
            out@ == start + edge_lines(m, ci as nat, ni as nat, kids, arg as nat),
        decreases kids.len() - arg,
    {
        let ghost before = out@;
        let children = node.children();
        let child = children[arg];
        assert(kids[arg as int] == child);
        push_node_name(out, ci, ni);
        let ghost named = out@;
        if children.len() > 1 {
            out.append(" -->|");
            push_decimal(out, arg as u64);
            out.append("| ");
        } else {
            out.append(" --> ");
        }
        assert(out@ =~= named + arrow(kids, arg as nat));
        let target = class_ref(egraph, list, child);
        out.append(target.as_str());
        out.append("\n");
        arg = arg + 1;
        assert(out@ =~= start + edge_lines(m, ci as nat, ni as nat, kids, arg as nat));
    }
}

/// Emit a Mermaid `flowchart` that, for the e-class of `root`, lists every
/// distinct term the class represents, in dictionary order, as sibling child
/// nodes of a single "class" node.
///
/// Enumeration is bounded: `max_depth` caps recursion into child classes (to
/// stay finite under cycles) and `max_terms` caps how many forms are shown.
pub fn to_mermaid_equivalences<L: Language, N: ClassData>(
    egraph: &EGraph<L, N>,
    root: Id,
    max_depth: usize,
    max_terms: usize,
) -> (out: String)
    requires
        egraph.wf(),
        egraph.model().has(root),
    ensures
        out@ == forms_chart(
            egraph.model().root(root),
            class_forms(
                egraph.model(),
                egraph.model().root(root),
                max_depth as nat,
                max_terms as nat,
            ).sort_by(text_order()),
        ),
{
    let forms = sorted_forms(egraph, root, max_depth, max_terms);
    let root = egraph.canonical_id(root);
    let ghost list = texts(forms@);
    let mut out: String = "flowchart TD\n".to_owned();
    out.append(" class");
    push_decimal(&mut out, root.0 as u64);
    out.append("([\"e-class ");
    push_decimal(&mut out, root.0 as u64);
    out.append(" (equivalent forms)\"])\n");
    let ghost start = out@;
    let mut i: usize = 0;
    assert(out@ =~= start + form_lines(root, list, 0));
    while i < forms.len()
        invariant
            list == texts(forms@),
            i <= forms@.len(),
            out@ == start + form_lines(root, list, i as nat),
        decreases forms@.len() - i,
    {
        assert(list[i as int] == forms@[i as int]@);
        out.append(" f");
        push_decimal(&mut out, root.0 as u64);
        out.append("_");
        push_decimal(&mut out, i as u64);
        out.append("[\"");
        push_escaped(&mut out, forms[i].as_str());
        out.append("\"]\n");
        out.append(" class");
        push_decimal(&mut out, root.0 as u64);
        out.append(" --- f");
        push_decimal(&mut out, root.0 as u64);
        out.append("_");
        push_decimal(&mut out, i as u64);
        out.append("\n");
        i = i + 1;
        assert(out@ =~= start + form_lines(root, list, i as nat));
    }
    out
}

} // verus!
