//! The tree that a walk goes through and the stream of candidates that the
//! walk of it gives, with what holds of that stream.

use crate::walk::{hidden_name, Entry, TraversalPolicy, WalkerView};
use vstd::prelude::*;

verus! {

/// A file or a folder with all that lies below it.
pub struct Tree<P> {
    pub entry: Entry<P>,
    /// The entries of the folder, in the order in which they are listed.
    pub children: Seq<Tree<P>>,
}

/// An entry that a walk hands out, with the names of the folders that the
/// walk went through to reach it, the outermost first.
pub struct Found<P> {
    pub entry: Entry<P>,
    pub above: Seq<Seq<char>>,
}

/// The entries at the top of `trees`.
pub open spec fn roots<P>(trees: Seq<Tree<P>>) -> Seq<Entry<P>> {
    Seq::new(trees.len(), |i: int| trees[i].entry)
}

/// The entries of what was found.
pub open spec fn entries_of<P>(found: Seq<Found<P>>) -> Seq<Entry<P>> {
    Seq::new(found.len(), |i: int| found[i].entry)
}

/// What the walk of one tree hands out, reached through the folders `above`.
/// An entry that the policy does not admit is passed over with all below it.
/// A folder comes before what it holds.
pub open spec fn found_in_tree<P>(tree: Tree<P>, policy: TraversalPolicy, above: Seq<Seq<char>>) -> Seq<
    Found<P>,
>
    decreases tree,
{
    if !policy.admits(&tree.entry) {
        Seq::empty()
    } else {
        let own = if policy.include_folders || !tree.entry.folder {
            seq![Found { entry: tree.entry, above }]
        } else {
            Seq::empty()
        };
        let below = if tree.entry.folder {
            found_in_forest(tree.children, policy, above.push(tree.entry.name@))
        } else {
            Seq::empty()
        };
        own + below
    }
}

/// What the walk of several trees hands out: what each of them gives, in
/// their order.
pub open spec fn found_in_forest<P>(
    trees: Seq<Tree<P>>,
    policy: TraversalPolicy,
    above: Seq<Seq<char>>,
) -> Seq<Found<P>>
    decreases trees,
{
    if trees.len() == 0 {
        Seq::empty()
    } else {
        found_in_tree(trees[0], policy, above) + found_in_forest(trees.drop_first(), policy, above)
    }
}

/// The names along the way to what was found: those of the folders above
/// it, then its own.
pub open spec fn segments<P>(found: Found<P>) -> Seq<Seq<char>> {
    found.above.push(found.entry.name@)
}

/// The stream of candidates that the walk from `trees` gives.
pub open spec fn walk<P>(trees: Seq<Tree<P>>, policy: TraversalPolicy) -> Seq<Entry<P>> {
    entries_of(found_in_forest(trees, policy, Seq::empty()))
}

/// What came of driving a walker: the entries that it handed out, in order,
/// and the state in which it was left.
pub struct Run<P> {
    pub emitted: Seq<Entry<P>>,
    pub after: WalkerView<P>,
}

/// Drives `walker` through `tree`, whose top entry is the one that waits
/// first: takes the visit, and where the visit asks for a listing enters the
/// children of `tree` and drives the walker through them.
pub open spec fn run_tree<P>(walker: WalkerView<P>, tree: Tree<P>) -> Run<P>
    decreases tree,
{
    match walker.visit() {
        None => Run { emitted: Seq::empty(), after: walker },
        Some(visit) => {
            let own = if visit.emit {
                seq![visit.entry]
            } else {
                Seq::empty()
            };
            if visit.list {
                let below = run_forest(
                    walker.advanced().entered(roots(tree.children)),
                    tree.children,
                );
                Run { emitted: own + below.emitted, after: below.after }
            } else {
                Run { emitted: own, after: walker.advanced() }
            }
        },
    }
}

/// Drives `walker` through `trees`, whose top entries were entered: through
/// each tree that the policy admits, in their order.
pub open spec fn run_forest<P>(walker: WalkerView<P>, trees: Seq<Tree<P>>) -> Run<P>
    decreases trees,
{
    if trees.len() == 0 {
        Run { emitted: Seq::empty(), after: walker }
    } else if !walker.policy.admits(&trees[0].entry) {
        run_forest(walker, trees.drop_first())
    } else {
        let first = run_tree(walker, trees[0]);
        let rest = run_forest(first.after, trees.drop_first());
        Run { emitted: first.emitted + rest.emitted, after: rest.after }
    }
}

/// The entries of two runs of found entries, one after the other.
proof fn lemma_entries_of_add<P>(a: Seq<Found<P>>, b: Seq<Found<P>>)
    ensures
        entries_of(a + b) == entries_of(a) + entries_of(b),
{
    assert(entries_of(a + b) =~= entries_of(a) + entries_of(b));
}

/// The top entries of a forest are those of its first tree and of the rest.
proof fn lemma_roots_split<P>(trees: Seq<Tree<P>>)
    requires
        trees.len() > 0,
    ensures
        roots(trees) == seq![trees[0].entry] + roots(trees.drop_first()),
{
    assert(roots(trees) =~= seq![trees[0].entry] + roots(trees.drop_first()));
}

/// A walker driven through a tree whose top entry waits first hands out what
/// the walk of the tree gives, and is left with what waited behind that entry.
pub proof fn lemma_run_tree<P>(behind: WalkerView<P>, tree: Tree<P>, above: Seq<Seq<char>>)
    requires
        behind.policy.admits(&tree.entry),
    ensures
        run_tree(
            WalkerView { policy: behind.policy, queue: seq![tree.entry] + behind.queue },
            tree,
        ) == (Run {
            emitted: entries_of(found_in_tree(tree, behind.policy, above)),
            after: behind,
        }),
    decreases tree,
{
    let policy = behind.policy;
    let walker = WalkerView { policy, queue: seq![tree.entry] + behind.queue };
    assert(walker.queue[0] == tree.entry);
    assert(walker.queue.drop_first() =~= behind.queue);
    assert(walker.advanced() == behind);
    let own = if policy.include_folders || !tree.entry.folder {
        seq![Found { entry: tree.entry, above }]
    } else {
        Seq::empty()
    };
    if tree.entry.folder {
        let inner = above.push(tree.entry.name@);
        lemma_run_forest(behind, tree.children, inner);
        lemma_entries_of_add(own, found_in_forest(tree.children, policy, inner));
        assert(entries_of(own) =~= if policy.include_folders {
            seq![tree.entry]
        } else {
            Seq::empty()
        });
    } else {
        assert(entries_of(own + Seq::<Found<P>>::empty()) =~= seq![tree.entry]);
    }
}

/// A walker driven through the trees whose top entries it has entered hands
/// out what the walk of the trees gives, and is left as it was before it
/// entered them.
pub proof fn lemma_run_forest<P>(before: WalkerView<P>, trees: Seq<Tree<P>>, above: Seq<Seq<char>>)
    ensures
        run_forest(before.entered(roots(trees)), trees) == (Run {
            emitted: entries_of(found_in_forest(trees, before.policy, above)),
            after: before,
        }),
    decreases trees,
{
    let policy = before.policy;
    let walker = before.entered(roots(trees));
    if trees.len() == 0 {
        assert(policy.admitted(roots(trees)) =~= Seq::<Entry<P>>::empty()) by {
            reveal(Seq::filter);
        }
        assert(walker.queue =~= before.queue);
        assert(entries_of(Seq::<Found<P>>::empty()) =~= Seq::<Entry<P>>::empty());
    } else {
        let first = trees[0];
        let rest = trees.drop_first();
        lemma_roots_split(trees);
        roots(rest).lemma_filter_prepend(first.entry, policy.admission());
        lemma_run_forest(before, rest, above);
        lemma_entries_of_add(
            found_in_tree(first, policy, above),
            found_in_forest(rest, policy, above),
        );
        if policy.admits(&first.entry) {
            let behind = before.entered(roots(rest));
            assert(walker.queue =~= seq![first.entry] + behind.queue);
            lemma_run_tree(behind, first, above);
        } else {
            assert(walker.queue =~= before.entered(roots(rest)).queue);
            assert(entries_of(found_in_tree(first, policy, above)) =~= Seq::<Entry<P>>::empty());
            assert(Seq::<Entry<P>>::empty() + entries_of(found_in_forest(rest, policy, above))
                =~= entries_of(found_in_forest(rest, policy, above)));
        }
    }
}

/// A walker that is started at the top entries of `trees` and driven through
/// them hands out the stream that the walk of `trees` gives, and nothing
/// waits when it is done.
pub proof fn lemma_walker_gives_walk<P>(trees: Seq<Tree<P>>, policy: TraversalPolicy)
    ensures
        run_forest(WalkerView::idle(policy).entered(roots(trees)), trees) == (Run {
            emitted: walk(trees, policy),
            after: WalkerView::idle(policy),
        }),
{
    lemma_run_forest(WalkerView::idle(policy), trees, Seq::empty());
}

/// `found` was reached through the folders `above`, and from there on
/// through no folder with a hidden name, and its own name is not hidden.
pub open spec fn unhidden_below<P>(found: Found<P>, above: Seq<Seq<char>>) -> bool {
    &&& above.len() <= found.above.len()
    &&& forall|k: int| 0 <= k < above.len() ==> #[trigger] found.above[k] == above[k]
    &&& forall|k: int|
        above.len() <= k < segments(found).len() ==> !hidden_name(#[trigger] segments(found)[k])
}

proof fn lemma_found_in_tree_unhidden<P>(
    tree: Tree<P>,
    policy: TraversalPolicy,
    above: Seq<Seq<char>>,
    i: int,
)
    requires
        !policy.include_hidden,
        0 <= i < found_in_tree(tree, policy, above).len(),
    ensures
        unhidden_below(found_in_tree(tree, policy, above)[i], above),
    decreases tree,
{
    let own_len: int = if policy.include_folders || !tree.entry.folder {
        1
    } else {
        0
    };
    if i >= own_len {
        let inner = above.push(tree.entry.name@);
        lemma_found_in_forest_unhidden(tree.children, policy, inner, i - own_len);
        let found = found_in_forest(tree.children, policy, inner)[i - own_len];
        assert(found_in_tree(tree, policy, above)[i] == found);
        assert(found.above[above.len() as int] == inner[above.len() as int]);
        assert forall|k: int| 0 <= k < above.len() implies #[trigger] found.above[k] == above[k] by {
            assert(found.above[k] == inner[k]);
        }
        assert forall|k: int| above.len() <= k < segments(found).len() implies !hidden_name(
            #[trigger] segments(found)[k],
        ) by {
            if k == above.len() {
                assert(segments(found)[k] == tree.entry.name@);
            }
        }
    }
}

proof fn lemma_found_in_forest_unhidden<P>(
    trees: Seq<Tree<P>>,
    policy: TraversalPolicy,
    above: Seq<Seq<char>>,
    i: int,
)
    requires
        !policy.include_hidden,
        0 <= i < found_in_forest(trees, policy, above).len(),
    ensures
        unhidden_below(found_in_forest(trees, policy, above)[i], above),
    decreases trees,
{
    let first = found_in_tree(trees[0], policy, above);
    if i < first.len() {
        lemma_found_in_tree_unhidden(trees[0], policy, above, i);
    } else {
        lemma_found_in_forest_unhidden(trees.drop_first(), policy, above, i - first.len());
    }
}

/// Where hidden entries are left out, the walk hands out nothing that has a
/// hidden name or that lies, however deep, in a folder with a hidden name.
pub proof fn lemma_walk_finds_nothing_hidden<P>(trees: Seq<Tree<P>>, policy: TraversalPolicy, i: int)
    requires
        !policy.include_hidden,
        0 <= i < found_in_forest(trees, policy, Seq::empty()).len(),
    ensures
        forall|k: int|
            0 <= k < segments(found_in_forest(trees, policy, Seq::empty())[i]).len()
                ==> !hidden_name(
                #[trigger] segments(found_in_forest(trees, policy, Seq::empty())[i])[k],
            ),
{
    lemma_found_in_forest_unhidden(trees, policy, Seq::empty(), i);
}

/// The test for what is no folder.
pub open spec fn is_file<P>() -> spec_fn(Found<P>) -> bool {
    |found: Found<P>| !found.entry.folder
}

/// The policy that differs from `policy` at most in whether folders are handed out.
pub open spec fn folders_set(policy: TraversalPolicy, include_folders: bool) -> TraversalPolicy {
    TraversalPolicy {
        include_hidden: policy.include_hidden,
        include_ignored: policy.include_ignored,
        include_folders,
    }
}

proof fn lemma_tree_folders_only_add<P>(tree: Tree<P>, policy: TraversalPolicy, above: Seq<Seq<char>>)
    ensures
        found_in_tree(tree, folders_set(policy, false), above) == found_in_tree(
            tree,
            folders_set(policy, true),
            above,
        ).filter(is_file()),
    decreases tree,
{
    let with = folders_set(policy, true);
    let without = folders_set(policy, false);
    let none = Seq::<Found<P>>::empty();
    assert(none.filter(is_file()) =~= none) by {
        reveal(Seq::filter);
    }
    if with.admits(&tree.entry) {
        let own = Found { entry: tree.entry, above };
        let inner = above.push(tree.entry.name@);
        let below = if tree.entry.folder {
            found_in_forest(tree.children, with, inner)
        } else {
            none
        };
        if tree.entry.folder {
            lemma_forest_folders_only_add(tree.children, policy, inner);
        }
        below.lemma_filter_prepend(own, is_file());
        assert(none + below.filter(is_file()) =~= below.filter(is_file()));
        assert(none + below =~= below);
    }
}

proof fn lemma_forest_folders_only_add<P>(
    trees: Seq<Tree<P>>,
    policy: TraversalPolicy,
    above: Seq<Seq<char>>,
)
    ensures
        found_in_forest(trees, folders_set(policy, false), above) == found_in_forest(
            trees,
            folders_set(policy, true),
            above,
        ).filter(is_file()),
    decreases trees,
{
    let with = folders_set(policy, true);
    if trees.len() == 0 {
        assert(Seq::<Found<P>>::empty().filter(is_file()) =~= Seq::<Found<P>>::empty()) by {
            reveal(Seq::filter);
        }
    } else {
        lemma_tree_folders_only_add(trees[0], policy, above);
        lemma_forest_folders_only_add(trees.drop_first(), policy, above);
        Seq::filter_distributes_over_add(
            found_in_tree(trees[0], with, above),
            found_in_forest(trees.drop_first(), with, above),
            is_file(),
        );
    }
}

/// The test for an entry that is no folder.
pub open spec fn entry_is_file<P>() -> spec_fn(Entry<P>) -> bool {
    |entry: Entry<P>| !entry.folder
}

/// Keeping the files of what was found keeps the files among its entries.
proof fn lemma_entries_of_files<P>(found: Seq<Found<P>>)
    ensures
        entries_of(found.filter(is_file())) == entries_of(found).filter(entry_is_file()),
    decreases found.len(),
{
    reveal(Seq::filter);
    if found.len() == 0 {
        assert(entries_of(found.filter(is_file())) =~= entries_of(found).filter(entry_is_file()));
    } else {
        let shorter = found.drop_last();
        let last = found.last();
        lemma_entries_of_files(shorter);
        assert(found =~= shorter.push(last));
        shorter.lemma_filter_push(last, is_file());
        assert(entries_of(found) =~= entries_of(shorter).push(last.entry));
        entries_of(shorter).lemma_filter_push(last.entry, entry_is_file());
        assert(entries_of(shorter.filter(is_file()).push(last)) =~= entries_of(
            shorter.filter(is_file()),
        ).push(last.entry));
    }
}

/// Handing out folders adds folders to the stream and nothing else: what a
/// walk gives without them is what the same walk gives with them, less the
/// folders, in the same order.
pub proof fn lemma_folders_only_add<P>(trees: Seq<Tree<P>>, policy: TraversalPolicy)
    ensures
        found_in_forest(trees, folders_set(policy, false), Seq::empty()) == found_in_forest(
            trees,
            folders_set(policy, true),
            Seq::empty(),
        ).filter(is_file()),
        walk(trees, folders_set(policy, false)) == walk(trees, folders_set(policy, true)).filter(
            entry_is_file(),
        ),
{
    lemma_forest_folders_only_add(trees, policy, Seq::empty());
    lemma_entries_of_files(found_in_forest(trees, folders_set(policy, true), Seq::empty()));
}

proof fn lemma_found_in_forest_add<P>(
    first: Seq<Tree<P>>,
    second: Seq<Tree<P>>,
    policy: TraversalPolicy,
    above: Seq<Seq<char>>,
)
    ensures
        found_in_forest(first + second, policy, above) == found_in_forest(first, policy, above)
            + found_in_forest(second, policy, above),
    decreases first.len(),
{
    if first.len() == 0 {
        assert(first + second =~= second);
        assert(Seq::<Found<P>>::empty() + found_in_forest(second, policy, above)
            =~= found_in_forest(second, policy, above));
    } else {
        lemma_found_in_forest_add(first.drop_first(), second, policy, above);
        assert((first + second).drop_first() =~= first.drop_first() + second);
        assert((first + second)[0] == first[0]);
        let head = found_in_tree(first[0], policy, above);
        assert(head + (found_in_forest(first.drop_first(), policy, above) + found_in_forest(
            second,
            policy,
            above,
        )) =~= (head + found_in_forest(first.drop_first(), policy, above)) + found_in_forest(
            second,
            policy,
            above,
        ));
    }
}

/// The walk from several roots gives what the walk from each of them gives,
/// one stream after the other in the order of the roots.
pub proof fn lemma_walk_in_order<P>(first: Seq<Tree<P>>, second: Seq<Tree<P>>, policy: TraversalPolicy)
    ensures
        walk(first + second, policy) == walk(first, policy) + walk(second, policy),
{
    lemma_found_in_forest_add(first, second, policy, Seq::empty());
    lemma_entries_of_add(
        found_in_forest(first, policy, Seq::empty()),
        found_in_forest(second, policy, Seq::empty()),
    );
}

} // verus!
