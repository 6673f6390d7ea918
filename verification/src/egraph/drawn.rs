//! What the diagrams show.

use super::lang::{Id, Language};
use super::mermaid::{
    all_edges, class_blocks, class_edges, class_name, class_names, edge_lines, escaped,
    escaped_char, flowchart, form_lines, forms_chart, node_lines,
};
use super::model::Model;
use super::readers::{class_ids, law_snapshot_shows_all, lemma_class_number, listing};
use crate::text::{decimal, lemma_pieces};
use vstd::prelude::*;

verus! {

/// A text inside a quoted label is the text itself, character by character,
/// but for the four characters with a meaning of their own.
pub proof fn law_label_is_escaped(text: Seq<char>)
    ensures
        escaped(text) == text.map_values(
            |c: char|
                if c == '&' {
                    seq!['&', 'a', 'm', 'p', ';']
                } else if c == '<' {
                    seq!['&', 'l', 't', ';']
                } else if c == '>' {
                    seq!['&', 'g', 't', ';']
                } else if c == '"' {
                    seq!['&', 'q', 'u', 'o', 't', ';']
                } else {
                    seq![c]
                },
        ).flatten(),
    decreases text.len(),
{
    reveal_strlit("&amp;");
    reveal_strlit("&lt;");
    reveal_strlit("&gt;");
    reveal_strlit("&quot;");
    let shown = |c: char|
        if c == '&' {
            seq!['&', 'a', 'm', 'p', ';']
        } else if c == '<' {
            seq!['&', 'l', 't', ';']
        } else if c == '>' {
            seq!['&', 'g', 't', ';']
        } else if c == '"' {
            seq!['&', 'q', 'u', 'o', 't', ';']
        } else {
            seq![c]
        };
    if text.len() > 0 {
        let less = text.drop_last();
        law_label_is_escaped(less);
        less.map_values(shown).lemma_flatten_push(shown(text.last()));
        assert(text.map_values(shown) =~= less.map_values(shown).push(shown(text.last())));
        assert(escaped_char(text.last()) =~= shown(text.last()));
    } else {
        assert(text.map_values(shown).flatten() =~= Seq::empty());
    }
}

/// The number of the class of `id`: its place among all classes.
pub open spec fn class_number<L: Language>(m: Model<L>, id: Id) -> int {
    class_ids(m).index_of(m.roots[id.at()])
}

/// The e-nodes of the class with the number `c`.
pub open spec fn class_nodes<L: Language>(m: Model<L>, c: int) -> Seq<L> {
    m.nodes[class_ids(m)[c].at()]
}

/// The line that shows an e-node: its name and, as a label, the operator over
/// the names of the classes of its children.
pub open spec fn node_text<L: Language>(m: Model<L>, c: int, k: int) -> Seq<char> {
    let node = class_nodes(m, c)[k];
    " n"@ + decimal(c as nat) + "_"@ + decimal(k as nat) + "[\""@ + escaped(
        node.rendered(
            Seq::new(
                node.kids().len(),
                |j: int| "c"@ + decimal(class_number(m, node.kids()[j]) as nat),
            ),
        ),
    ) + "\"]\n"@
}

/// The lines that show a class: those of its e-nodes between a line that opens
/// and a line that ends it.
pub open spec fn class_text<L: Language>(m: Model<L>, c: int) -> Seq<char> {
    " subgraph c"@ + decimal(c as nat) + "[\"e-class "@ + decimal(c as nat) + "\"]\n"@ + Seq::new(
        class_nodes(m, c).len(),
        |k: int| node_text(m, c, k),
    ).flatten() + " end\n"@
}

/// The line that shows the edge from an e-node to the class of its child at
/// `j`, whose number is written on it where there are more children.
pub open spec fn edge_text<L: Language>(m: Model<L>, c: int, k: int, j: int) -> Seq<char> {
    let kids = class_nodes(m, c)[k].kids();
    let from = " n"@ + decimal(c as nat) + "_"@ + decimal(k as nat);
    let to = "c"@ + decimal(class_number(m, kids[j]) as nat) + "\n"@;
    if kids.len() > 1 {
        from + " -->|"@ + decimal(j as nat) + "| "@ + to
    } else {
        from + " --> "@ + to
    }
}

/// The lines for all edges from one e-node.
pub open spec fn node_edges_text<L: Language>(m: Model<L>, c: int, k: int) -> Seq<char> {
    Seq::new(class_nodes(m, c)[k].kids().len(), |j: int| edge_text(m, c, k, j)).flatten()
}

/// The lines for all edges from the e-nodes of one class.
pub open spec fn class_edges_text<L: Language>(m: Model<L>, c: int) -> Seq<char> {
    Seq::new(class_nodes(m, c).len(), |k: int| node_edges_text(m, c, k)).flatten()
}

/// The class of a known id is shown by its number.
proof fn lemma_class_name<L: Language>(m: Model<L>, id: Id)
    requires
        m.shape(),
        m.has(id),
    ensures
        class_name(m, id) == "c"@ + decimal(class_number(m, id) as nat),
{
    let root = m.root(id);
    let ids = class_ids(m);
    assert(m.roots[id.at()] == root);
    assert(m.has(root) && m.root(root) == root);
    lemma_class_number(m, root, m.len());
    law_snapshot_shows_all(m);
    let n = listing(m, root.at() as nat).len() as int;
    assert(ids[n] == root);
    assert(ids.contains(root));
    let i = ids.index_of(root);
    assert(ids[i] == root && 0 <= i < ids.len());
    assert(i == n);
}

#[verifier::spinoff_prover]
#[verifier::rlimit(50)]
proof fn lemma_node_lines<L: Language>(m: Model<L>, c: int, n: nat)
    requires
        m.shape(),
        0 <= c < class_ids(m).len(),
        n <= class_nodes(m, c).len(),
    ensures
        node_lines(m, c as nat, class_nodes(m, c), n) == Seq::new(
            n,
            |k: int| node_text(m, c, k),
        ).flatten(),
    decreases n,
{
    let piece = |k: int| node_text(m, c, k);
    if n == 0 {
        assert(Seq::new(0, piece).flatten() =~= Seq::empty());
    } else {
        let less = (n - 1) as nat;
        lemma_node_lines(m, c, less);
        lemma_pieces(less, piece);
        law_snapshot_shows_all(m);
        assert(class_ids(m).contains(class_ids(m)[c]));
        let nodes = class_nodes(m, c);
        let node = nodes[n - 1];
        assert(m.knows(m.nodes[class_ids(m)[c].at()][n - 1]));
        let names = Seq::new(
            node.kids().len(),
            |j: int| "c"@ + decimal(class_number(m, node.kids()[j]) as nat),
        );
        assert forall|j: int| 0 <= j < node.kids().len() implies class_names(m, node.kids())[j]
            == names[j] by {
            assert(m.has(node.kids()[j]));
            lemma_class_name(m, node.kids()[j]);
        }
        assert(class_names(m, node.kids()) =~= names);
        assert(node_lines(m, c as nat, nodes, n) =~= node_lines(m, c as nat, nodes, less) + piece(
            less as int,
        ));
    }
}

#[verifier::spinoff_prover]
#[verifier::rlimit(50)]
proof fn lemma_edge_lines<L: Language>(m: Model<L>, c: int, k: int, n: nat)
    requires
        m.shape(),
        0 <= c < class_ids(m).len(),
        0 <= k < class_nodes(m, c).len(),
        n <= class_nodes(m, c)[k].kids().len(),
    ensures
        edge_lines(m, c as nat, k as nat, class_nodes(m, c)[k].kids(), n) == Seq::new(
            n,
            |j: int| edge_text(m, c, k, j),
        ).flatten(),
    decreases n,
{
    let piece = |j: int| edge_text(m, c, k, j);
    if n == 0 {
        assert(Seq::new(0, piece).flatten() =~= Seq::empty());
    } else {
        let less = (n - 1) as nat;
        lemma_edge_lines(m, c, k, less);
        lemma_pieces(less, piece);
        law_snapshot_shows_all(m);
        assert(class_ids(m).contains(class_ids(m)[c]));
        let kids = class_nodes(m, c)[k].kids();
        assert(m.knows(m.nodes[class_ids(m)[c].at()][k]));
        assert(m.has(kids[n - 1]));
        lemma_class_name(m, kids[n - 1]);
        assert(edge_lines(m, c as nat, k as nat, kids, n) =~= edge_lines(
            m,
            c as nat,
            k as nat,
            kids,
            less,
        ) + piece(less as int));
    }
}

proof fn lemma_class_edges<L: Language>(m: Model<L>, c: int, n: nat)
    requires
        m.shape(),
        0 <= c < class_ids(m).len(),
        n <= class_nodes(m, c).len(),
    ensures
        class_edges(m, c as nat, class_nodes(m, c), n) == Seq::new(
            n,
            |k: int| node_edges_text(m, c, k),
        ).flatten(),
    decreases n,
{
    let piece = |k: int| node_edges_text(m, c, k);
    if n == 0 {
        assert(Seq::new(0, piece).flatten() =~= Seq::empty());
    } else {
        let less = (n - 1) as nat;
        lemma_class_edges(m, c, less);
        lemma_pieces(less, piece);
        lemma_edge_lines(m, c, n - 1, class_nodes(m, c)[n - 1].kids().len());
    }
}

/// The classes as they are listed, by their numbers.
proof fn lemma_listed<L: Language>(m: Model<L>)
    requires
        m.shape(),
    ensures
        listing(m, m.len()).len() == class_ids(m).len(),
        forall|c: int|
            #![trigger listing(m, m.len())[c]]
            0 <= c < class_ids(m).len() ==> listing(m, m.len())[c].1 == class_nodes(m, c),
{
    law_snapshot_shows_all(m);
}

#[verifier::spinoff_prover]
#[verifier::rlimit(50)]
proof fn lemma_blocks<L: Language>(m: Model<L>, n: nat)
    requires
        m.shape(),
        n <= class_ids(m).len(),
    ensures
        class_blocks(m, listing(m, m.len()), n) == Seq::new(
            n,
            |c: int| class_text(m, c),
        ).flatten(),
        all_edges(m, listing(m, m.len()), n) == Seq::new(
            n,
            |c: int| class_edges_text(m, c),
        ).flatten(),
    decreases n,
{
    let (block, edges) = (|c: int| class_text(m, c), |c: int| class_edges_text(m, c));
    if n == 0 {
        assert(Seq::new(0, block).flatten() =~= Seq::empty());
        assert(Seq::new(0, edges).flatten() =~= Seq::empty());
    } else {
        let less = (n - 1) as nat;
        lemma_blocks(m, less);
        lemma_pieces(less, block);
        lemma_pieces(less, edges);
        lemma_listed(m);
        let classes = listing(m, m.len());
        let nodes = class_nodes(m, n - 1);
        assert(classes[n - 1].1 == nodes);
        lemma_node_lines(m, n - 1, nodes.len());
        lemma_class_edges(m, n - 1, nodes.len());
        assert(class_blocks(m, classes, n) =~= class_blocks(m, classes, less) + block(less as int));
    }
}

/// The diagram shows all there is, and nothing twice: behind the heading a block
/// for every class, with a line for every one of its e-nodes, and behind these
/// a line for the edge from every e-node to the class of each of its children.
/// Classes are numbered in the order of their ids, e-nodes and children by
/// their places.
pub proof fn law_flowchart_shows_all<L: Language>(m: Model<L>)
    requires
        m.shape(),
    ensures
        flowchart(m) == "flowchart TD\n"@ + Seq::new(
            class_ids(m).len(),
            |c: int| class_text(m, c),
        ).flatten() + Seq::new(class_ids(m).len(), |c: int| class_edges_text(m, c)).flatten(),
        forall|id: Id|
            m.has(id) ==> 0 <= #[trigger] class_number(m, id) < class_ids(m).len() && class_ids(
                m,
            )[class_number(m, id)] == m.root(id),
{
    lemma_listed(m);
    lemma_blocks(m, class_ids(m).len());
    law_snapshot_shows_all(m);
    assert forall|id: Id|
        m.has(id) implies 0 <= #[trigger] class_number(m, id) < class_ids(m).len() && class_ids(
        m,
    )[class_number(m, id)] == m.root(id) by {
        let root = m.roots[id.at()];
        assert(m.has(root) && m.root(root) == root);
        assert(class_ids(m).contains(root));
    }
}

/// The two lines that show a form of a class: the form itself, and that it
/// belongs to the class.
pub open spec fn form_text(id: Id, forms: Seq<Seq<char>>, i: int) -> Seq<char> {
    let name = " f"@ + decimal(id.0 as nat) + "_"@ + decimal(i as nat);
    name + "[\""@ + escaped(forms[i]) + "\"]\n"@ + " class"@ + decimal(id.0 as nat) + " ---"@ + name
        + "\n"@
}

#[verifier::spinoff_prover]
#[verifier::rlimit(50)]
proof fn lemma_form_lines(id: Id, forms: Seq<Seq<char>>, n: nat)
    requires
        n <= forms.len(),
    ensures
        form_lines(id, forms, n) == Seq::new(n, |i: int| form_text(id, forms, i)).flatten(),
    decreases n,
{
    let piece = |i: int| form_text(id, forms, i);
    if n == 0 {
        assert(Seq::new(0, piece).flatten() =~= Seq::empty());
    } else {
        let less = (n - 1) as nat;
        lemma_form_lines(id, forms, less);
        lemma_pieces(less, piece);
        reveal_strlit(" --- f");
        reveal_strlit(" ---");
        reveal_strlit(" f");
        assert(" --- f"@ =~= " ---"@ + " f"@);
        assert(form_lines(id, forms, n) =~= form_lines(id, forms, less) + piece(less as int));
    }
}

/// The diagram of a class shows every form, each with a line for itself and a
/// line that ties it to the class.
pub proof fn law_forms_chart_shows_all(id: Id, forms: Seq<Seq<char>>)
    ensures
        forms_chart(id, forms) == "flowchart TD\n"@ + " class"@ + decimal(id.0 as nat)
            + "([\"e-class "@ + decimal(id.0 as nat) + " (equivalent forms)\"])\n"@ + Seq::new(
            forms.len(),
            |i: int| form_text(id, forms, i),
        ).flatten(),
{
    lemma_form_lines(id, forms, forms.len());
}

} // verus!
