use vstd::prelude::*;

verus! {

/// Items grouped by label: labels in the order they first appear, each with
/// its items in order.
pub type Groups<A> = Seq<(Seq<char>, Seq<A>)>;

/// Whether some group has label `l`.
pub open spec fn has_legend<A>(g: Groups<A>, l: Seq<char>) -> bool {
    exists|i: int| 0 <= i < g.len() && (#[trigger] g[i]).0 == l
}

/// No two groups share a label.
pub open spec fn legends_distinct<A>(g: Groups<A>) -> bool {
    forall|i: int, j: int| 0 <= i < j < g.len() ==> (#[trigger] g[i]).0 != (#[trigger] g[j]).0
}

/// The place of a group with label `l`, when there is one.
pub open spec fn legend_index<A>(g: Groups<A>, l: Seq<char>) -> int {
    choose|i: int| 0 <= i < g.len() && (#[trigger] g[i]).0 == l
}

/// The groups with the item `a` of label `l` added.
pub open spec fn add_to_group<A>(g: Groups<A>, l: Seq<char>, a: A) -> Groups<A> {
    if has_legend(g, l) {
        let i = legend_index(g, l);
        g.update(i, (l, g[i].1.push(a)))
    } else {
        g.push((l, seq![a]))
    }
}

/// Labelled items grouped by label.
pub open spec fn grouped<A>(items: Seq<(Seq<char>, A)>) -> Groups<A>
    decreases items.len(),
{
    if items.len() == 0 {
        Seq::empty()
    } else {
        add_to_group(grouped(items.drop_last()), items.last().0, items.last().1)
    }
}

pub open spec fn groups_view<A>(g: Seq<(String, Vec<A>)>) -> Groups<A> {
    g.map_values(|e: (String, Vec<A>)| (e.0@, e.1@))
}

/// Adds the item `a` to the group labelled `label`, or to a new group at the end.
pub fn add_to_groups<A>(groups: &mut Vec<(String, Vec<A>)>, label: String, a: A)
    requires
        legends_distinct(groups_view(old(groups)@)),
    ensures
        groups_view(final(groups)@) == add_to_group(groups_view(old(groups)@), label@, a),
        legends_distinct(groups_view(final(groups)@)),
{
    let ghost g = groups_view(groups@);
    let mut i: usize = 0;
    while i < groups.len()
        invariant
            i <= groups.len(),
            groups@ == old(groups)@,
            g == groups_view(groups@),
            legends_distinct(g),
            forall|j: int| 0 <= j < i ==> (#[trigger] g[j]).0 != label@,
        decreases groups.len() - i,
    {
        if groups[i].0 == label {
            assert(g[i as int].0 == label@);
            let (l, mut items) = groups.remove(i);
            items.push(a);
            groups.insert(i, (l, items));
            proof {
                let k = legend_index(g, label@);
                assert(k == i);
                assert(groups_view(groups@) =~= g.update(i as int, (label@, g[i as int].1.push(a))));
                assert forall|x: int, y: int| 0 <= x < y < g.len() implies
                    (#[trigger] groups_view(groups@)[x]).0 != (#[trigger] groups_view(groups@)[y]).0 by {
                    assert(g[x].0 != g[y].0);
                }
            }
            return;
        }
        i = i + 1;
    }
    let mut items: Vec<A> = Vec::new();
    items.push(a);
    groups.push((label, items));
    proof {
        assert(!has_legend(g, label@));
        assert(groups_view(groups@) =~= g.push((label@, seq![a])));
    }
}

/// Whether every item of every group meets `p`.
pub open spec fn all_items<A>(g: Groups<A>, p: spec_fn(A) -> bool) -> bool {
    forall|x: int, y: int| 0 <= x < g.len() && 0 <= y < g[x].1.len() ==> p(#[trigger] g[x].1[y])
}

/// Adding an item that meets `p` to groups whose items all meet `p` keeps it so.
pub proof fn lemma_add_to_group_all<A>(g: Groups<A>, l: Seq<char>, a: A, p: spec_fn(A) -> bool)
    requires
        all_items(g, p),
        p(a),
    ensures
        all_items(add_to_group(g, l, a), p),
{
    let r = add_to_group(g, l, a);
    if has_legend(g, l) {
        let c = legend_index(g, l);
        assert forall|x: int, y: int| 0 <= x < r.len() && 0 <= y < r[x].1.len() implies p(#[trigger] r[x].1[y]) by {
            if x == c {
                if y < g[c].1.len() {
                    assert(r[x].1[y] == g[c].1[y]);
                }
            } else {
                assert(r[x] == g[x]);
            }
        }
    } else {
        assert forall|x: int, y: int| 0 <= x < r.len() && 0 <= y < r[x].1.len() implies p(#[trigger] r[x].1[y]) by {
            if x < g.len() {
                assert(r[x] == g[x]);
            }
        }
    }
}

} // verus!
