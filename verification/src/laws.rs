//! What holds of every search, stated over the functions that the contract of
//! [`find_paths`](crate::search::find_paths) speaks of, and proved from them.
//!
//! The laws speak of the nodes of a document by position: the positions of
//! the children taken on the way down from the root. A position names one
//! node even where two entries of an object share a key.

use crate::path::Step;
use crate::search::{arity, child, found, hit, matches_from, matches_in, step_to, Query};
use crate::value::{same, Tree};
use vstd::prelude::*;

verus! {

/// Whether `longer` begins with the steps of `shorter`.
pub open spec fn begins_with(longer: Seq<Step>, shorter: Seq<Step>) -> bool {
    shorter.len() <= longer.len() && longer.take(shorter.len() as int) == shorter
}

/// Whether `position`, a sequence of child positions read from the root down,
/// names a node of `node`.
pub open spec fn valid(node: Tree, position: Seq<int>) -> bool
    decreases position.len(),
{
    position.len() == 0 || (0 <= position[0] < arity(node) && valid(
        child(node, position[0]),
        position.drop_first(),
    ))
}

/// The node of `node` that `position` names.
pub open spec fn at(node: Tree, position: Seq<int>) -> Tree
    decreases position.len(),
{
    if position.len() == 0 {
        node
    } else {
        at(child(node, position[0]), position.drop_first())
    }
}

/// The path from `node` to the node that `position` names.
pub open spec fn route(node: Tree, position: Seq<int>) -> Seq<Step>
    decreases position.len(),
{
    if position.len() == 0 {
        Seq::empty()
    } else {
        seq![step_to(node, position[0])] + route(child(node, position[0]), position.drop_first())
    }
}

/// Whether no two children of `node` are reached by the same step: the keys
/// of an object are pairwise distinct.
pub open spec fn distinct_steps(node: Tree) -> bool {
    forall|i: int, j: int|
        0 <= i < j < arity(node) ==> #[trigger] step_to(node, i) != #[trigger] step_to(node, j)
}

/// Whether the keys of every object in `node` are pairwise distinct.
pub open spec fn distinct_keys(node: Tree) -> bool
    decreases node,
{
    &&& distinct_steps(node)
    &&& forall|i: int| 0 <= i < arity(node) ==> distinct_keys(#[trigger] child(node, i))
}

/// A path that begins with a path begins with what that path begins with.
proof fn lemma_begins_with_chain(longest: Seq<Step>, longer: Seq<Step>, shorter: Seq<Step>)
    requires
        begins_with(longest, longer),
        begins_with(longer, shorter),
    ensures
        begins_with(longest, shorter),
{
    assert(longest.take(shorter.len() as int) =~= longest.take(longer.len() as int).take(
        shorter.len() as int,
    ));
}

/// Every path reported from a node begins with the path to that node, and
/// all but the path to the node itself, which can only come first, are longer.
proof fn lemma_reports_begin_with_path(node: Tree, path: Seq<Step>, query: Query, k: int)
    requires
        0 <= k < matches_in(node, path, query).len(),
    ensures
        begins_with(matches_in(node, path, query)[k], path),
        matches_in(node, path, query)[k].len() == path.len() ==> k == 0 && hit(node, path, query),
    decreases node, 1int, 0nat,
{
    let below = matches_from(node, path, query, 0);
    if hit(node, path, query) {
        assert(path.take(path.len() as int) =~= path);
        if !(query is Value) && k > 0 {
            let c = lemma_reports_from_children(node, path, query, 0, k - 1);
            assert(begins_with(path.push(step_to(node, c)), path)) by {
                assert(path.push(step_to(node, c)).take(path.len() as int) =~= path);
            }
            lemma_begins_with_chain(below[k - 1], path.push(step_to(node, c)), path);
        }
    } else {
        let c = lemma_reports_from_children(node, path, query, 0, k);
        assert(begins_with(path.push(step_to(node, c)), path)) by {
            assert(path.push(step_to(node, c)).take(path.len() as int) =~= path);
        }
        lemma_begins_with_chain(below[k], path.push(step_to(node, c)), path);
    }
}

/// Every path reported from the children of a node begins with the path to
/// one of those children.
proof fn lemma_reports_from_children(
    node: Tree,
    path: Seq<Step>,
    query: Query,
    from: nat,
    k: int,
) -> (c: int)
    requires
        0 <= k < matches_from(node, path, query, from).len(),
    ensures
        from <= c < arity(node),
        begins_with(matches_from(node, path, query, from)[k], path.push(step_to(node, c))),
    decreases node, 0int, arity(node) - from,
{
    let first = matches_in(child(node, from as int), path.push(step_to(node, from as int)), query);
    if k < first.len() {
        lemma_reports_begin_with_path(
            child(node, from as int),
            path.push(step_to(node, from as int)),
            query,
            k,
        );
        from as int
    } else {
        lemma_reports_from_children(node, path, query, from + 1, k - first.len())
    }
}

/// A cap of one or more keeps the first paths of the full result, as many as
/// the cap says or all of them where there are fewer.
pub proof fn lemma_cap_keeps_the_first(document: Tree, query: Query, max: usize)
    requires
        max >= 1,
    ensures
        ({
            let all = found(document, query, None);
            let kept = found(document, query, Some(max));
            &&& kept.len() == if max <= all.len() {
                max as nat
            } else {
                all.len()
            }
            &&& kept == all.take(kept.len() as int)
        }),
{
}

/// A node that is the same as the target of a value search is reported, and
/// nothing below it is.
pub proof fn lemma_value_hit_ends_descent(node: Tree, path: Seq<Step>, target: Tree)
    requires
        same(node, target),
    ensures
        matches_in(node, path, Query::Value(target)) == seq![path],
{
}

/// Every path that a search reports is the path to a node of the document,
/// and that node is a hit.
pub proof fn lemma_every_report_is_a_hit(
    document: Tree,
    query: Query,
    max_results: Option<usize>,
    k: int,
) -> (position: Seq<int>)
    requires
        0 <= k < found(document, query, max_results).len(),
    ensures
        valid(document, position),
        route(document, position) == found(document, query, max_results)[k],
        hit(at(document, position), found(document, query, max_results)[k], query),
{
    lemma_report_in(document, Seq::empty(), query, k)
}

/// Every path reported from a node leads to a hit in that node.
proof fn lemma_report_in(node: Tree, path: Seq<Step>, query: Query, k: int) -> (position: Seq<
    int,
>)
    requires
        0 <= k < matches_in(node, path, query).len(),
    ensures
        valid(node, position),
        matches_in(node, path, query)[k] == path + route(node, position),
        hit(at(node, position), matches_in(node, path, query)[k], query),
    decreases node, 1int, 0nat,
{
    if hit(node, path, query) && k == 0 {
        Seq::empty()
    } else if hit(node, path, query) {
        lemma_report_from(node, path, query, 0, k - 1)
    } else {
        lemma_report_from(node, path, query, 0, k)
    }
}

/// Every path reported from the children of a node leads to a hit below it.
proof fn lemma_report_from(node: Tree, path: Seq<Step>, query: Query, from: nat, k: int) -> (position:
    Seq<int>)
    requires
        0 <= k < matches_from(node, path, query, from).len(),
    ensures
        position.len() > 0,
        valid(node, position),
        matches_from(node, path, query, from)[k] == path + route(node, position),
        hit(at(node, position), matches_from(node, path, query, from)[k], query),
    decreases node, 0int, arity(node) - from,
{
    let next = child(node, from as int);
    let step = step_to(node, from as int);
    let first = matches_in(next, path.push(step), query);
    if k < first.len() {
        let below = lemma_report_in(next, path.push(step), query, k);
        let position = seq![from as int] + below;
        assert(position.drop_first() =~= below);
        position
    } else {
        lemma_report_from(node, path, query, from + 1, k - first.len())
    }
}

/// A value search for a target that no node of the document is the same as
/// reports nothing, whatever the document is.
pub proof fn lemma_absent_value_is_not_found(
    document: Tree,
    target: Tree,
    max_results: Option<usize>,
)
    requires
        forall|position: Seq<int>| #[trigger]
            valid(document, position) ==> !same(at(document, position), target),
    ensures
        found(document, Query::Value(target), max_results) == Seq::<Seq<Step>>::empty(),
{
    let paths = found(document, Query::Value(target), max_results);
    if paths.len() > 0 {
        let position = lemma_every_report_is_a_hit(document, Query::Value(target), max_results, 0);
    }
}

/// A value search without a cap reports every node that is the same as the
/// target and stands inside no other node that is.
pub proof fn lemma_value_search_reports_outermost(
    document: Tree,
    target: Tree,
    position: Seq<int>,
)
    requires
        valid(document, position),
        same(at(document, position), target),
        forall|n: int|
            0 <= n < position.len() ==> !same(at(document, #[trigger] position.take(n)), target),
    ensures
        found(document, Query::Value(target), None).contains(route(document, position)),
{
    lemma_outermost_reported_in(document, Seq::empty(), target, position);
}

/// A hit with no hit above it inside a node is reported from that node.
proof fn lemma_outermost_reported_in(
    node: Tree,
    path: Seq<Step>,
    target: Tree,
    position: Seq<int>,
)
    requires
        valid(node, position),
        same(at(node, position), target),
        forall|n: int|
            0 <= n < position.len() ==> !same(at(node, #[trigger] position.take(n)), target),
    ensures
        matches_in(node, path, Query::Value(target)).contains(path + route(node, position)),
    decreases position.len(),
{
    let query = Query::Value(target);
    let wanted = path + route(node, position);
    let all = matches_in(node, path, query);
    if position.len() == 0 {
        assert(all[0] == wanted);
    } else {
        let c = position[0];
        let next = child(node, c);
        let rest = position.drop_first();
        let longer = path.push(step_to(node, c));
        assert(position.take(0) =~= Seq::<int>::empty());
        assert forall|n: int| 0 <= n < rest.len() implies !same(
            at(next, #[trigger] rest.take(n)),
            target,
        ) by {
            assert(position.take(n + 1).drop_first() =~= rest.take(n));
        }
        assert(longer + route(next, rest) =~= wanted);
        lemma_outermost_reported_in(next, longer, target, rest);
        lemma_child_reports_kept(node, path, query, 0, c, wanted);
    }
}

/// Two paths that part ways at one step are no beginning of one another.
proof fn lemma_parted(
    first: Seq<Step>,
    second: Seq<Step>,
    path: Seq<Step>,
    one: Step,
    other: Step,
)
    requires
        begins_with(first, path.push(one)),
        begins_with(second, path.push(other)),
        one != other,
    ensures
        !begins_with(first, second),
        !begins_with(second, first),
{
    let n = path.len() as int;
    assert(first[n] == first.take(n + 1)[n]);
    assert(second[n] == second.take(n + 1)[n]);
}

/// Where the keys of every object are pairwise distinct, no path that a value
/// search reports is another path that it reports, or leads on from one: once
/// a node is reported, nothing inside it is.
pub proof fn lemma_value_reports_stand_apart(
    document: Tree,
    target: Tree,
    max_results: Option<usize>,
    a: int,
    b: int,
)
    requires
        distinct_keys(document),
        0 <= a < found(document, Query::Value(target), max_results).len(),
        0 <= b < found(document, Query::Value(target), max_results).len(),
        a != b,
    ensures
        !begins_with(
            found(document, Query::Value(target), max_results)[b],
            found(document, Query::Value(target), max_results)[a],
        ),
{
    lemma_apart_in(document, Seq::empty(), target, a, b);
}

/// No report from a node is, or leads on from, another report from it.
proof fn lemma_apart_in(node: Tree, path: Seq<Step>, target: Tree, a: int, b: int)
    requires
        distinct_keys(node),
        0 <= a < matches_in(node, path, Query::Value(target)).len(),
        0 <= b < matches_in(node, path, Query::Value(target)).len(),
        a != b,
    ensures
        !begins_with(
            matches_in(node, path, Query::Value(target))[b],
            matches_in(node, path, Query::Value(target))[a],
        ),
    decreases node, 1int, 0nat,
{
    if !same(node, target) {
        lemma_apart_from(node, path, target, 0, a, b);
    }
}

/// No report from the children of a node is, or leads on from, another.
proof fn lemma_apart_from(node: Tree, path: Seq<Step>, target: Tree, from: nat, a: int, b: int)
    requires
        distinct_keys(node),
        0 <= a < matches_from(node, path, Query::Value(target), from).len(),
        0 <= b < matches_from(node, path, Query::Value(target), from).len(),
        a != b,
    ensures
        !begins_with(
            matches_from(node, path, Query::Value(target), from)[b],
            matches_from(node, path, Query::Value(target), from)[a],
        ),
    decreases node, 0int, arity(node) - from,
{
    let query = Query::Value(target);
    let next = child(node, from as int);
    let step = step_to(node, from as int);
    let first = matches_in(next, path.push(step), query);
    let rest = matches_from(node, path, query, from + 1);
    let n = first.len() as int;
    if a < n && b < n {
        lemma_apart_in(next, path.push(step), target, a, b);
    } else if a >= n && b >= n {
        lemma_apart_from(node, path, target, from + 1, a - n, b - n);
    } else if a < n {
        lemma_reports_begin_with_path(next, path.push(step), query, a);
        let c = lemma_reports_from_children(node, path, query, from + 1, b - n);
        lemma_parted(first[a], rest[b - n], path, step, step_to(node, c));
    } else {
        lemma_reports_begin_with_path(next, path.push(step), query, b);
        let c = lemma_reports_from_children(node, path, query, from + 1, a - n);
        lemma_parted(first[b], rest[a - n], path, step, step_to(node, c));
    }
}

/// In an array, items that are hits themselves are reported in the order of
/// their positions: of two such reports, the earlier has the smaller index.
pub proof fn lemma_array_hits_ascend(
    items: Seq<Tree>,
    query: Query,
    max_results: Option<usize>,
    a: int,
    b: int,
    i: nat,
    j: nat,
)
    requires
        0 <= a < b < found(Tree::Array(items), query, max_results).len(),
        found(Tree::Array(items), query, max_results)[a] == seq![Step::Index(i)],
        found(Tree::Array(items), query, max_results)[b] == seq![Step::Index(j)],
    ensures
        i < j,
{
    let document = Tree::Array(items);
    let root = Seq::<Step>::empty();
    let all = matches_in(document, root, query);
    let ca = lemma_reports_from_children(document, root, query, 0, a);
    let cb = lemma_reports_from_children(document, root, query, 0, b);
    assert(all[a].take(1)[0] == step_to(document, ca));
    assert(all[b].take(1)[0] == step_to(document, cb));
    lemma_direct_reports_ascend(document, root, query, 0, a, b, i as int, j as int);
}

/// Of two children that are reported themselves, the one reported first
/// stands first, where no two children are reached by the same step.
proof fn lemma_direct_reports_ascend(
    node: Tree,
    path: Seq<Step>,
    query: Query,
    from: nat,
    a: int,
    b: int,
    ca: int,
    cb: int,
)
    requires
        distinct_steps(node),
        0 <= a < b < matches_from(node, path, query, from).len(),
        0 <= ca < arity(node),
        0 <= cb < arity(node),
        matches_from(node, path, query, from)[a] == path.push(step_to(node, ca)),
        matches_from(node, path, query, from)[b] == path.push(step_to(node, cb)),
    ensures
        ca < cb,
    decreases arity(node) - from,
{
    let next = child(node, from as int);
    let step = step_to(node, from as int);
    let first = matches_in(next, path.push(step), query);
    let rest = matches_from(node, path, query, from + 1);
    let n = first.len() as int;
    if a >= n {
        lemma_direct_reports_ascend(node, path, query, from + 1, a - n, b - n, ca, cb);
    } else {
        lemma_reports_begin_with_path(next, path.push(step), query, a);
        if b < n {
            lemma_reports_begin_with_path(next, path.push(step), query, b);
        } else {
            let c = lemma_reports_from_children(node, path, query, from + 1, b - n);
            assert(path.push(step_to(node, cb)).take(path.len() as int + 1)[path.len() as int]
                == step_to(node, c));
        }
    }
}

/// A key search without a cap reports every node that stands under the key,
/// at whatever depth, and whether or not a node above it or below it stands
/// under the key too.
pub proof fn lemma_key_search_reports_every_occurrence(
    document: Tree,
    key: Seq<char>,
    position: Seq<int>,
)
    requires
        valid(document, position),
        position.len() > 0,
        route(document, position).last() == Step::Key(key),
    ensures
        found(document, Query::Key(key), None).contains(route(document, position)),
{
    lemma_key_reported_in(document, Seq::empty(), key, position);
}

/// A node that stands under the key inside a node is reported from that node.
proof fn lemma_key_reported_in(node: Tree, path: Seq<Step>, key: Seq<char>, position: Seq<int>)
    requires
        valid(node, position),
        hit(at(node, position), path + route(node, position), Query::Key(key)),
    ensures
        matches_in(node, path, Query::Key(key)).contains(path + route(node, position)),
    decreases position.len(),
{
    let query = Query::Key(key);
    let wanted = path + route(node, position);
    let all = matches_in(node, path, query);
    if position.len() == 0 {
        assert(all[0] == wanted);
    } else {
        let c = position[0];
        let next = child(node, c);
        let longer = path.push(step_to(node, c));
        assert(longer + route(next, position.drop_first()) =~= wanted);
        lemma_key_reported_in(next, longer, key, position.drop_first());
        lemma_child_reports_kept(node, path, query, 0, c, wanted);
        let below = matches_from(node, path, query, 0);
        let k = choose|k: int| 0 <= k < below.len() && below[k] == wanted;
        if hit(node, path, query) {
            assert(all[k + 1] == wanted);
        } else {
            assert(all[k] == wanted);
        }
    }
}

/// What is reported from a child is reported from the children of its parent.
proof fn lemma_child_reports_kept(
    node: Tree,
    path: Seq<Step>,
    query: Query,
    from: nat,
    c: int,
    wanted: Seq<Step>,
)
    requires
        from <= c < arity(node),
        matches_in(child(node, c), path.push(step_to(node, c)), query).contains(wanted),
    ensures
        matches_from(node, path, query, from).contains(wanted),
    decreases c - from,
{
    let first = matches_in(child(node, from as int), path.push(step_to(node, from as int)), query);
    let rest = matches_from(node, path, query, from + 1);
    if from == c {
        let k = choose|k: int| 0 <= k < first.len() && first[k] == wanted;
        assert((first + rest)[k] == wanted);
    } else {
        lemma_child_reports_kept(node, path, query, from + 1, c, wanted);
        let k = choose|k: int| 0 <= k < rest.len() && rest[k] == wanted;
        assert((first + rest)[first.len() + k] == wanted);
    }
}

} // verus!
