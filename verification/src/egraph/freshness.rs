//! When analysis data is up to date with the data it was computed from.

use super::lang::{lawful, Id, Language};
use super::model::{
    canon, canon_ids, holds_entry, lemma_canon_eq, mentions, Model,
};
use super::{Analysis, EGraph};
use vstd::prelude::*;

verus! {

/// What `make` computes depends on the operator of a node and on the data of
/// its child classes, not on the child ids.
pub open spec fn made_by_operator<L: Language, N: Analysis<L>>() -> bool {
    forall|parts: Seq<N::Data>, a: L, b: L, data: N::Data|
        #![trigger N::made(parts, &a, &data), a.same_op(&b)]
        a.same_op(&b) && N::made(parts, &a, &data) ==> N::made(parts, &b, &data)
}

/// The class of `owner` holds the information that `make` computes for `node`.
pub open spec fn up_to_date<L: Language, N: Analysis<L>>(
    egraph: &EGraph<L, N>,
    node: L,
    owner: Id,
) -> bool {
    exists|data: N::Data| #[trigger]
        N::made(egraph.kid_data(node), &node, &data) && N::covers(
            &egraph.class_data(egraph.model().root(owner)),
            &data,
        )
}

/// All parents of class `k` are up to date.
pub open spec fn caught_up<L: Language, N: Analysis<L>>(egraph: &EGraph<L, N>, k: Id) -> bool {
    forall|e: int|
        #![trigger egraph.model().parents[k.at()][e]]
        0 <= e < egraph.model().parents[k.at()].len() ==> up_to_date(
            egraph,
            egraph.model().parents[k.at()][e].0,
            egraph.model().parents[k.at()][e].1,
        )
}

/// Class `k` is on the list.
pub open spec fn queued(roots: Seq<Id>, work: Seq<Id>, k: Id) -> bool {
    exists|i: int| 0 <= i < work.len() && roots[(#[trigger] work[i]).at()] == k
}

/// The class of a child of `node` is on the list.
pub open spec fn waits<L: Language>(roots: Seq<Id>, work: Seq<Id>, node: L) -> bool {
    exists|j: int|
        0 <= j < node.kids().len() && queued(
            roots,
            work,
            roots[(#[trigger] node.kids()[j]).at()],
        )
}

/// The parent entry is up to date, or is going to be computed again.
pub open spec fn attended<L: Language, N: Analysis<L>>(
    egraph: &EGraph<L, N>,
    work: Seq<Id>,
    entry: (L, Id),
) -> bool {
    up_to_date(egraph, entry.0, entry.1) || waits(egraph.model().roots, work, entry.0)
}

/// All parent entries of the classes in `list` are attended to.
pub open spec fn all_attended<L: Language, N: Analysis<L>>(
    egraph: &EGraph<L, N>,
    work: Seq<Id>,
    list: Seq<Id>,
) -> bool {
    forall|i: int, e: int|
        #![trigger egraph.model().parents[list[i].at()][e]]
        0 <= i < list.len() && 0 <= e < egraph.model().parents[list[i].at()].len() ==> attended(
            egraph,
            work,
            egraph.model().parents[list[i].at()][e],
        )
}

/// Like [`all_attended`], but for the entries that refer to class `id`.
pub open spec fn attended_but<L: Language, N: Analysis<L>>(
    egraph: &EGraph<L, N>,
    work: Seq<Id>,
    list: Seq<Id>,
    id: Id,
) -> bool {
    forall|i: int, e: int|
        #![trigger egraph.model().parents[list[i].at()][e]]
        0 <= i < list.len() && 0 <= e < egraph.model().parents[list[i].at()].len() ==> attended(
            egraph,
            work,
            egraph.model().parents[list[i].at()][e],
        ) || mentions(
            egraph.model().roots,
            egraph.model().parents[list[i].at()][e].0,
            id,
        )
}

/// The first `n` parent entries of class `id` are attended to.
pub open spec fn attended_upto<L: Language, N: Analysis<L>>(
    egraph: &EGraph<L, N>,
    work: Seq<Id>,
    id: Id,
    n: int,
) -> bool {
    forall|e: int|
        #![trigger egraph.model().parents[id.at()][e]]
        0 <= e < n ==> attended(egraph, work, egraph.model().parents[id.at()][e])
}

/// Nothing but the data of the class `o` may have changed, where it only
/// gained information, and if it did, the class was put on the list.
pub open spec fn gained<L: Language, N: Analysis<L>>(
    before: &EGraph<L, N>,
    after: &EGraph<L, N>,
    work: Seq<Id>,
    more: Seq<Id>,
    o: Id,
) -> bool {
    &&& after.model() == before.model()
    &&& before.model().has(o)
    &&& before.model().root(o) == o
    &&& forall|k: Id|
        #![trigger after.class_data(k)]
        before.model().has(k) && k != o ==> after.class_data(k) == before.class_data(k)
    &&& forall|other: &N::Data| #[trigger]
        N::covers(&before.class_data(o), other) ==> N::covers(&after.class_data(o), other)
    &&& (after.class_data(o) == before.class_data(o) && more == work) || more == work.push(o)
}

/// A queued class stays queued on a longer list.
proof fn lemma_queued_more(roots: Seq<Id>, work: Seq<Id>, o: Id, k: Id)
    requires
        queued(roots, work, k),
    ensures
        queued(roots, work.push(o), k),
{
    let i = choose|i: int| 0 <= i < work.len() && roots[(#[trigger] work[i]).at()] == k;
    assert(work.push(o)[i] == work[i]);
}

/// An entry that is attended to stays so when a class gains information.
pub proof fn lemma_attended_gained<L: Language, N: Analysis<L>>(
    before: &EGraph<L, N>,
    after: &EGraph<L, N>,
    work: Seq<Id>,
    more: Seq<Id>,
    o: Id,
    entry: (L, Id),
)
    requires
        before.model().shape(),
        gained(before, after, work, more, o),
        before.model().entry_ok(entry),
        attended(before, work, entry),
    ensures
        attended(after, more, entry),
{
    let m = before.model();
    let (node, owner) = entry;
    if waits(m.roots, work, node) {
        let j = choose|j: int|
            0 <= j < node.kids().len() && queued(
                m.roots,
                work,
                m.roots[(#[trigger] node.kids()[j]).at()],
            );
        if more != work {
            lemma_queued_more(m.roots, work, o, m.roots[node.kids()[j].at()]);
        }
        assert(queued(m.roots, more, m.roots[node.kids()[j].at()]));
    } else if mentions(m.roots, node, o) && more == work.push(o) {
        let j = choose|j: int|
            0 <= j < node.kids().len() && m.roots[(#[trigger] node.kids()[j]).at()] == o;
        assert(more[work.len() as int] == o);
        assert(queued(m.roots, more, m.roots[node.kids()[j].at()]));
        assert(waits(m.roots, more, node));
    } else {
        assert(after.kid_data(node) =~= before.kid_data(node)) by {
            assert forall|j: int| 0 <= j < node.kids().len() implies after.kid_data(node)[j]
                == before.kid_data(node)[j] by {
                let kid = m.root(node.kids()[j]);
                assert(m.has(node.kids()[j]));
                assert(m.has(kid));
                if kid == o {
                    assert(m.roots[node.kids()[j].at()] == o);
                    assert(mentions(m.roots, node, o));
                } else {
                    assert(after.class_data(kid) == before.class_data(kid));
                }
            }
        }
        let data = choose|data: N::Data| #[trigger]
            N::made(before.kid_data(node), &node, &data) && N::covers(
                &before.class_data(m.root(owner)),
                &data,
            );
        let home = m.root(owner);
        assert(m.has(home));
        if home == o {
            assert(N::covers(&after.class_data(o), &data));
        } else {
            assert(after.class_data(home) == before.class_data(home));
        }
        assert(N::made(after.kid_data(node), &node, &data));
        assert(up_to_date(after, node, owner));
    }
}

/// All entries stay attended to when a class gains information.
pub proof fn lemma_all_gained<L: Language, N: Analysis<L>>(
    before: &EGraph<L, N>,
    after: &EGraph<L, N>,
    work: Seq<Id>,
    more: Seq<Id>,
    o: Id,
    list: Seq<Id>,
    id: Id,
    n: int,
)
    requires
        before.model().shape(),
        before.model().has(id),
        gained(before, after, work, more, o),
        forall|i: int| #![trigger list[i]] 0 <= i < list.len() ==> before.model().has(list[i]),
        0 <= n <= before.model().parents[id.at()].len(),
        attended_but(before, work, list, id),
        attended_upto(before, work, id, n),
    ensures
        attended_but(after, more, list, id),
        attended_upto(after, more, id, n),
{
    let m = before.model();
    assert forall|i: int, e: int|
        #![trigger after.model().parents[list[i].at()][e]]
        0 <= i < list.len() && 0 <= e
            < after.model().parents[list[i].at()].len() implies attended(
        after,
        more,
        after.model().parents[list[i].at()][e],
    ) || mentions(after.model().roots, after.model().parents[list[i].at()][e].0, id) by {
        assert(m.has(list[i]));
        let entry = m.parents[list[i].at()][e];
        assert(m.entry_ok(m.parents[list[i].at()][e]));
        if attended(before, work, entry) {
            lemma_attended_gained(before, after, work, more, o, entry);
        }
    }
    assert forall|e: int|
        #![trigger after.model().parents[id.at()][e]]
        0 <= e < n implies attended(after, more, after.model().parents[id.at()][e]) by {
        let entry = m.parents[id.at()][e];
        assert(m.entry_ok(m.parents[id.at()][e]));
        assert(attended(before, work, entry));
        lemma_attended_gained(before, after, work, more, o, entry);
    }
}

/// Taking a class off the list leaves the entries that refer to it open.
pub proof fn lemma_taken_off<L: Language, N: Analysis<L>>(
    before: &EGraph<L, N>,
    after: &EGraph<L, N>,
    list: Seq<Id>,
    work: Seq<Id>,
    id: Id,
)
    requires
        before.model().shape(),
        before.same(after),
        work.len() > 0,
        before.model().has(work.last()),
        id == before.model().root(work.last()),
        forall|i: int| #![trigger list[i]] 0 <= i < list.len() ==> before.model().has(list[i]),
        all_attended(before, work, list),
    ensures
        attended_but(after, work.drop_last(), list, id),
{
    let m = before.model();
    let rest = work.drop_last();
    assert forall|i: int, e: int|
        #![trigger after.model().parents[list[i].at()][e]]
        0 <= i < list.len() && 0 <= e
            < after.model().parents[list[i].at()].len() implies attended(
        after,
        rest,
        after.model().parents[list[i].at()][e],
    ) || mentions(after.model().roots, after.model().parents[list[i].at()][e].0, id) by {
        assert(m.has(list[i]));
        let entry = m.parents[list[i].at()][e];
        let node = entry.0;
        assert(attended(before, work, entry));
        if up_to_date(before, entry.0, entry.1) {
            lemma_same_up_to_date(before, after, entry);
        } else {
            let j = choose|j: int|
                0 <= j < node.kids().len() && queued(
                    m.roots,
                    work,
                    m.roots[(#[trigger] node.kids()[j]).at()],
                );
            let k = m.roots[node.kids()[j].at()];
            let w = choose|w: int|
                0 <= w < work.len() && m.roots[(#[trigger] work[w]).at()] == k;
            if w < rest.len() {
                assert(rest[w] == work[w]);
                assert(queued(m.roots, rest, m.roots[node.kids()[j].at()]));
                assert(waits(m.roots, rest, node));
            } else {
                assert(k == id);
                assert(m.roots[node.kids()[j].at()] == id);
            }
        }
    }
}

/// Compressing paths leaves an entry up to date.
pub proof fn lemma_same_up_to_date<L: Language, N: Analysis<L>>(
    before: &EGraph<L, N>,
    after: &EGraph<L, N>,
    entry: (L, Id),
)
    requires
        after.model().roots == before.model().roots,
        forall|k: Id| #[trigger]
            after.class_data(k) == before.class_data(k) || !before.model().has(k),
        before.model().shape(),
        before.model().entry_ok(entry),
        up_to_date(before, entry.0, entry.1),
    ensures
        up_to_date(after, entry.0, entry.1),
{
    let m = before.model();
    let (node, owner) = entry;
    assert(after.kid_data(node) =~= before.kid_data(node)) by {
        assert forall|j: int| 0 <= j < node.kids().len() implies after.kid_data(node)[j]
            == before.kid_data(node)[j] by {
            assert(m.has(node.kids()[j]));
            let kid = m.root(node.kids()[j]);
            assert(m.has(kid));
            assert(after.class_data(kid) == before.class_data(kid));
        }
    }
    let data = choose|data: N::Data| #[trigger]
        N::made(before.kid_data(node), &node, &data) && N::covers(
            &before.class_data(m.root(owner)),
            &data,
        );
    assert(m.has(m.root(owner)));
    assert(after.class_data(m.root(owner)) == before.class_data(m.root(owner)));
    assert(N::made(after.kid_data(node), &node, &data));
}

/// Once all entries of class `id` are attended to, so are all others that
/// refer to it.
pub proof fn lemma_all_attended<L: Language, N: Analysis<L>>(
    egraph: &EGraph<L, N>,
    work: Seq<Id>,
    list: Seq<Id>,
    id: Id,
)
    requires
        lawful::<L>(),
        made_by_operator::<L, N>(),
        egraph.model().shape(),
        egraph.model().consistent(),
        egraph.model().has(id),
        forall|i: int| #![trigger list[i]] 0 <= i < list.len() ==> egraph.model().has(list[i]),
        attended_but(egraph, work, list, id),
        attended_upto(egraph, work, id, egraph.model().parents[id.at()].len() as int),
    ensures
        all_attended(egraph, work, list.push(id)),
{
    let m = egraph.model();
    let now = list.push(id);
    assert forall|i: int, e: int|
        #![trigger m.parents[now[i].at()][e]]
        0 <= i < now.len() && 0 <= e < m.parents[now[i].at()].len() implies attended(
        egraph,
        work,
        m.parents[now[i].at()][e],
    ) by {
        if i < list.len() {
            assert(now[i] == list[i]);
            assert(m.has(list[i]));
            let entry = m.parents[list[i].at()][e];
            if !attended(egraph, work, entry) {
                assert(mentions(m.roots, entry.0, id));
                let other = lemma_twin(m, list[i], e, id);
                lemma_twin_attended(egraph, work, m.parents[id.at()][other], entry);
            }
        } else {
            assert(now[i] == id);
        }
    }
}

/// An entry that refers to class `id` has a counterpart among the entries of
/// that class.
proof fn lemma_twin<L: Language>(m: Model<L>, c: Id, e: int, id: Id) -> (other: int)
    requires
        lawful::<L>(),
        m.shape(),
        m.consistent(),
        m.has(c),
        m.has(id),
        0 <= e < m.parents[c.at()].len(),
        mentions(m.roots, m.parents[c.at()][e].0, id),
    ensures
        0 <= other < m.parents[id.at()].len(),
        canon(m.roots, m.parents[id.at()][other].0) == canon(m.roots, m.parents[c.at()][e].0),
        m.root(m.parents[id.at()][other].1) == m.root(m.parents[c.at()][e].1),
{
    reveal(Model::consistent_with);
    let entry = m.parents[c.at()][e];
    assert(m.entry_ok(m.parents[c.at()][e]));
    assert(Id(c.at() as u32) == c);
    assert(m.real_entry(c, m.parents[c.at()][e]));
    let k = m.root(entry.1);
    let nodes = m.class(entry.1);
    let form = canon(m.roots, entry.0);
    let a = choose|a: int| 0 <= a < nodes.len() && canon(m.roots, #[trigger] nodes[a]) == form;
    let node = nodes[a];
    assert(m.nodes[k.at()][a] == node);
    assert(m.knows(m.nodes[k.at()][a]));
    let j = choose|j: int|
        0 <= j < entry.0.kids().len() && m.roots[(#[trigger] entry.0.kids()[j]).at()] == id;
    lemma_canon_eq(m.roots, node, entry.0);
    assert(canon_ids(m.roots, node.kids()).len() == canon_ids(m.roots, entry.0.kids()).len());
    assert(canon_ids(m.roots, node.kids())[j] == canon_ids(m.roots, entry.0.kids())[j]);
    assert(m.root(m.nodes[k.at()][a].kids()[j]) == id);
    assert(m.listed(Id(0), Seq::empty(), node, Id(k.at() as u32), m.nodes[k.at()][a].kids()[j]));
    assert(Id(k.at() as u32) == k);
    let entries = m.parents[m.root(node.kids()[j]).at()];
    assert(holds_entry(m.roots, entries, form, k));
    let other = choose|other: int|
        0 <= other < entries.len() && canon(m.roots, (#[trigger] entries[other]).0) == form
            && m.roots[entries[other].1.at()] == k;
    other
}

/// Entries of one canonical form and one owner are attended to together.
proof fn lemma_twin_attended<L: Language, N: Analysis<L>>(
    egraph: &EGraph<L, N>,
    work: Seq<Id>,
    a: (L, Id),
    b: (L, Id),
)
    requires
        lawful::<L>(),
        made_by_operator::<L, N>(),
        canon(egraph.model().roots, a.0) == canon(egraph.model().roots, b.0),
        egraph.model().root(a.1) == egraph.model().root(b.1),
        attended(egraph, work, a),
    ensures
        attended(egraph, work, b),
{
    let m = egraph.model();
    lemma_canon_eq(m.roots, a.0, b.0);
    let (xs, ys) = (canon_ids(m.roots, a.0.kids()), canon_ids(m.roots, b.0.kids()));
    assert(a.0.kids().len() == xs.len() && b.0.kids().len() == ys.len());
    if waits(m.roots, work, a.0) {
        let j = choose|j: int|
            0 <= j < a.0.kids().len() && queued(
                m.roots,
                work,
                m.roots[(#[trigger] a.0.kids()[j]).at()],
            );
        assert(xs[j] == ys[j]);
        assert(queued(m.roots, work, m.roots[b.0.kids()[j].at()]));
    } else {
        assert(egraph.kid_data(a.0) =~= egraph.kid_data(b.0)) by {
            assert forall|j: int| 0 <= j < a.0.kids().len() implies egraph.kid_data(a.0)[j]
                == egraph.kid_data(b.0)[j] by {
                assert(xs[j] == ys[j]);
            }
        }
        let data = choose|data: N::Data| #[trigger]
            N::made(egraph.kid_data(a.0), &a.0, &data) && N::covers(
                &egraph.class_data(m.root(a.1)),
                &data,
            );
        assert(a.0.same_op(&b.0));
        assert(N::made(egraph.kid_data(b.0), &b.0, &data));
    }
}

} // verus!
