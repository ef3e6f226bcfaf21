//! The search: a depth-first walk over a document that reports, as written-out
//! paths, every node that is the same as a target value, or every node that
//! stands under a target key.
//!
//! The walk keeps its own stack of work, so a deep document costs memory on
//! the heap and never call depth. The children of a node are visited in the
//! order in which the node lists them, and a node is reported before anything
//! below it.

use crate::path::{render, render_path, steps_of, JsonPath, Step};
use crate::value::{
    entry_trees, item_trees, lemma_array_view, lemma_object_view, same, Scalar, Tree, Value,
};
use vstd::prelude::*;

verus! {

/// What a search compares with its target.
#[derive(PartialEq, Eq, Structural, Clone, Copy, Debug)]
pub enum SearchType {
    /// The nodes themselves: a node is reported when it is the same as the
    /// target, and nothing below a reported node is looked at.
    Value,
    /// The keys that lead to nodes: a node is reported when the last step to
    /// it is the target key, and the search goes on below it.
    Key,
}

/// Why a search could not start.
#[derive(PartialEq, Eq, Structural, Clone, Copy, Debug)]
pub enum SearchError {
    /// A key search was asked for with a target that is not a string.
    InvalidTarget,
}

/// What a search looks for, as a mathematical value.
pub ghost enum Query {
    Value(Tree),
    Key(Seq<char>),
}

/// The query that a target and a search type stand for, if they stand for one:
/// a key search needs a string as its target.
pub open spec fn query_for(target: Tree, search_type: SearchType) -> Option<Query> {
    match search_type {
        SearchType::Value => Some(Query::Value(target)),
        SearchType::Key => match target {
            Tree::Str(key) => Some(Query::Key(key)),
            _ => None,
        },
    }
}

/// How many children a node has.
pub open spec fn arity(node: Tree) -> nat {
    match node {
        Tree::Array(items) => items.len(),
        Tree::Object(entries) => entries.len(),
        _ => 0,
    }
}

/// The child of `node` at position `i`.
pub open spec fn child(node: Tree, i: int) -> Tree {
    match node {
        Tree::Array(items) => items[i],
        Tree::Object(entries) => entries[i].1,
        _ => Tree::Null,
    }
}

/// The step from `node` to its child at position `i`.
pub open spec fn step_to(node: Tree, i: int) -> Step {
    match node {
        Tree::Object(entries) => Step::Key(entries[i].0),
        _ => Step::Index(i as nat),
    }
}

/// Whether the node that `path` leads to is one that `query` asks for.
pub open spec fn hit(node: Tree, path: Seq<Step>, query: Query) -> bool {
    match query {
        Query::Value(target) => same(node, target),
        Query::Key(key) => path.len() > 0 && path.last() == Step::Key(key),
    }
}

/// The paths that a search without a cap reports from the node that `path`
/// leads to: the node itself if it is a hit, and then, unless it is a hit of
/// a value search, what the search reports from its children in order.
pub open spec fn matches_in(node: Tree, path: Seq<Step>, query: Query) -> Seq<Seq<Step>>
    decreases node, 1int, 0nat,
{
    if hit(node, path, query) {
        if query is Value {
            seq![path]
        } else {
            seq![path] + matches_from(node, path, query, 0)
        }
    } else {
        matches_from(node, path, query, 0)
    }
}

/// What a search reports from the children of `node` at position `from` and
/// after it, child by child.
pub open spec fn matches_from(node: Tree, path: Seq<Step>, query: Query, from: nat) -> Seq<
    Seq<Step>,
>
    decreases node, 0int, arity(node) - from,
{
    if from < arity(node) {
        matches_in(child(node, from as int), path.push(step_to(node, from as int)), query)
            + matches_from(node, path, query, from + 1)
    } else {
        Seq::empty()
    }
}

/// What is left of `all` under a cap: its first `max` paths where the cap is
/// not zero and `all` has more, else all of it. A search looks at its cap only
/// when it has just recorded a path, so a cap of zero is never reached.
pub open spec fn capped(all: Seq<Seq<Step>>, max_results: Option<usize>) -> Seq<Seq<Step>> {
    match max_results {
        Some(max) => if 0 < max < all.len() {
            all.take(max as int)
        } else {
            all
        },
        None => all,
    }
}

/// The paths that a search of `document` reports, in order.
pub open spec fn found(document: Tree, query: Query, max_results: Option<usize>) -> Seq<
    Seq<Step>,
> {
    capped(matches_in(document, Seq::empty(), query), max_results)
}

/// The paths of `paths`, each written out.
pub open spec fn rendered(paths: Seq<Seq<Step>>) -> Seq<Seq<char>> {
    Seq::new(paths.len(), |i: int| render_path(paths[i]))
}

/// How many nodes a document has.
spec fn size(node: Tree) -> nat
    decreases node, 1int, 0nat,
{
    1 + size_from(node, 0)
}

/// How many nodes stand below `node` in its children at position `from` and
/// after it.
spec fn size_from(node: Tree, from: nat) -> nat
    decreases node, 0int, arity(node) - from,
{
    if from < arity(node) {
        size(child(node, from as int)) + size_from(node, from + 1)
    } else {
        0
    }
}

/// One piece of work that a search has not done yet: a node, how many steps
/// of the path buffer lead to its parent, and the step from the parent to
/// it, which only the root lacks.
struct StackItem<'a> {
    value: &'a Value,
    depth: usize,
    path_element: Option<JsonPath<'a>>,
}

impl<'a> StackItem<'a> {
    /// The path to the node, given a buffer whose first `depth` steps lead to
    /// its parent.
    spec fn path(self, buffer: Seq<Step>) -> Seq<Step> {
        match self.path_element {
            Some(element) => buffer.take(self.depth as int).push(element@),
            None => buffer.take(self.depth as int),
        }
    }
}

/// What the items of a stack will still report, the top of the stack first.
spec fn pending<'a>(stack: Seq<StackItem<'a>>, buffer: Seq<Step>, query: Query) -> Seq<Seq<Step>>
    decreases stack.len(),
{
    if stack.len() == 0 {
        Seq::empty()
    } else {
        matches_in(stack.last().value@, stack.last().path(buffer), query) + pending(
            stack.drop_last(),
            buffer,
            query,
        )
    }
}

/// How many nodes the items of a stack still stand for.
spec fn weight<'a>(stack: Seq<StackItem<'a>>) -> nat
    decreases stack.len(),
{
    if stack.len() == 0 {
        0
    } else {
        size(stack.last().value@) + weight(stack.drop_last())
    }
}

/// No item asks for more of the buffer than `limit` steps, only an item with
/// a step of its own asks for any, and an item asks for no less than the
/// items below it.
spec fn ordered<'a>(stack: Seq<StackItem<'a>>, limit: nat) -> bool {
    &&& forall|i: int| 0 <= i < stack.len() ==> (#[trigger] stack[i]).depth <= limit
    &&& forall|i: int|
        0 <= i < stack.len() && (#[trigger] stack[i]).path_element is None ==> stack[i].depth == 0
    &&& forall|i: int, j: int|
        0 <= i <= j < stack.len() ==> (#[trigger] stack[i]).depth <= (#[trigger] stack[j]).depth
}

/// What a stack reports does not depend on the steps of the buffer that none
/// of its items asks for.
proof fn lemma_pending_agrees<'a>(
    stack: Seq<StackItem<'a>>,
    first: Seq<Step>,
    second: Seq<Step>,
    query: Query,
    shared: nat,
)
    requires
        shared <= first.len(),
        shared <= second.len(),
        first.take(shared as int) == second.take(shared as int),
        forall|i: int| 0 <= i < stack.len() ==> (#[trigger] stack[i]).depth <= shared,
    ensures
        pending(stack, first, query) == pending(stack, second, query),
    decreases stack.len(),
{
    if stack.len() > 0 {
        let top = stack.last();
        let depth = top.depth as int;
        assert(first.take(depth) =~= first.take(shared as int).take(depth));
        assert(second.take(depth) =~= second.take(shared as int).take(depth));
        lemma_pending_agrees(stack.drop_last(), first, second, query, shared);
    }
}

/// An item put on a stack reports first, and then the stack as it was.
proof fn lemma_pending_push<'a>(
    stack: Seq<StackItem<'a>>,
    item: StackItem<'a>,
    buffer: Seq<Step>,
    query: Query,
)
    ensures
        pending(stack.push(item), buffer, query) == matches_in(
            item.value@,
            item.path(buffer),
            query,
        ) + pending(stack, buffer, query),
        weight(stack.push(item)) == size(item.value@) + weight(stack),
{
    assert(stack.push(item).drop_last() =~= stack);
}

/// Puts the children of `node` on the stack, the last child first, so that
/// the first child is the next to leave it. `path` is the path to `node`.
fn push_children<'a>(
    stack: &mut Vec<StackItem<'a>>,
    node: &'a Value,
    path: &Vec<JsonPath<'a>>,
    Ghost(query): Ghost<Query>,
)
    requires
        ordered(old(stack)@, path@.len()),
    ensures
        ordered(final(stack)@, path@.len()),
        pending(final(stack)@, steps_of(path@), query) == matches_from(
            node@,
            steps_of(path@),
            query,
            0,
        ) + pending(old(stack)@, steps_of(path@), query),
        weight(final(stack)@) == size_from(node@, 0) + weight(old(stack)@),
{
    let ghost before = stack@;
    let ghost buffer = steps_of(path@);
    let depth: usize = path.len();
    match node {
        Value::Scalar(_) => {},
        Value::Array(items) => {
            proof {
                lemma_array_view(*items);
            }
            let mut i: usize = items.len();
            while i > 0
                invariant
                    i <= items.len(),
                    depth == path@.len(),
                    buffer == steps_of(path@),
                    node@ == Tree::Array(item_trees(items@)),
                    ordered(before, path@.len()),
                    ordered(stack@, path@.len()),
                    pending(stack@, buffer, query) == matches_from(node@, buffer, query, i as nat)
                        + pending(before, buffer, query),
                    weight(stack@) == size_from(node@, i as nat) + weight(before),
                decreases i,
            {
                i -= 1;
                let item = StackItem {
                    value: &items[i],
                    depth,
                    path_element: Some(JsonPath::Index(i)),
                };
                proof {
                    lemma_pending_push(stack@, item, buffer, query);
                    assert(item.path(buffer) == buffer.push(step_to(node@, i as int)));
                }
                stack.push(item);
            }
        },
        Value::Object(entries) => {
            proof {
                lemma_object_view(*entries);
            }
            let mut i: usize = entries.len();
            while i > 0
                invariant
                    i <= entries.len(),
                    depth == path@.len(),
                    buffer == steps_of(path@),
                    node@ == Tree::Object(entry_trees(entries@)),
                    ordered(before, path@.len()),
                    ordered(stack@, path@.len()),
                    pending(stack@, buffer, query) == matches_from(node@, buffer, query, i as nat)
                        + pending(before, buffer, query),
                    weight(stack@) == size_from(node@, i as nat) + weight(before),
                decreases i,
            {
                i -= 1;
                let item = StackItem {
                    value: &entries[i].1,
                    depth,
                    path_element: Some(JsonPath::Key(&entries[i].0)),
                };
                proof {
                    lemma_pending_push(stack@, item, buffer, query);
                    assert(item.path(buffer) == buffer.push(step_to(node@, i as int)));
                }
                stack.push(item);
            }
        },
    }
}

/// The steps of a buffer cut down to its first `depth` elements.
proof fn lemma_steps_take<'a>(path: Seq<JsonPath<'a>>, depth: int)
    requires
        0 <= depth <= path.len(),
    ensures
        steps_of(path.subrange(0, depth)) == steps_of(path).take(depth),
{
}

/// The steps of a buffer with one more element.
proof fn lemma_steps_push<'a>(path: Seq<JsonPath<'a>>, element: JsonPath<'a>)
    ensures
        steps_of(path.push(element)) == steps_of(path).push(element@),
{
}

/// Finds every place in `value` that the target stands at, and returns the
/// paths to those places, written out, in the order in which a depth-first
/// walk meets them.
///
/// With [`SearchType::Value`] a place is a node that is the same as `target`;
/// nothing below such a node is reported. With [`SearchType::Key`] the target
/// has to be a string, and a place is a node that stands under that key; the
/// search goes on below it. Any other target of a key search is refused with
/// [`SearchError::InvalidTarget`] before the walk starts.
///
/// `max_results` stops the search as soon as that many paths are recorded.
/// What is returned is then the first so many paths of the full result.
pub fn find_paths<'a>(
    value: &'a Value,
    target: &Value,
    max_results: Option<usize>,
    search_type: SearchType,
) -> (result: Result<Vec<String>, SearchError>)
    ensures
        match query_for(target@, search_type) {
            Some(query) => result matches Ok(paths) && paths.deep_view() == rendered(
                found(value@, query, max_results),
            ),
            None => result == Err::<Vec<String>, SearchError>(SearchError::InvalidTarget),
        },
{
    let key_target: Option<&String> = match search_type {
        SearchType::Value => None,
        SearchType::Key => match target {
            Value::Scalar(Scalar::Str(key)) => Some(key),
            _ => {
                return Err(SearchError::InvalidTarget);
            },
        },
    };
    let ghost query = query_for(target@, search_type)->Some_0;
    let ghost all = matches_in(value@, Seq::empty(), query);

    let mut stack: Vec<StackItem<'a>> = Vec::new();
    let mut paths: Vec<String> = Vec::new();
    let mut path: Vec<JsonPath<'a>> = Vec::new();
    let ghost mut recorded: Seq<Seq<Step>> = Seq::empty();
    let root = StackItem { value, depth: 0, path_element: None };
    proof {
        lemma_pending_push(stack@, root, steps_of(path@), query);
        assert(root.path(steps_of(path@)) =~= Seq::<Step>::empty());
    }
    stack.push(root);

    while stack.len() > 0
        invariant_except_break
            ordered(stack@, path@.len()),
            recorded + pending(stack@, steps_of(path@), query) == all,
            max_results matches Some(max) ==> max > 0 ==> recorded.len() < max,
        invariant
            query_for(target@, search_type) == Some(query),
            search_type is Key <==> key_target is Some,
            key_target matches Some(key) ==> query == Query::Key(key@),
            all == matches_in(value@, Seq::empty(), query),
            paths.deep_view() == rendered(recorded),
            paths@.len() == recorded.len(),
        ensures
            recorded == capped(all, max_results),
        decreases weight(stack@),
    {
        let ghost path_before = path@;
        let ghost buffer = steps_of(path@);
        let ghost below = stack@.drop_last();
        let item = stack.pop().unwrap();
        let ghost here = item.path(buffer);
        proof {
            assert(here.take(item.depth as int) =~= buffer.take(item.depth as int));
            lemma_pending_agrees(below, buffer, here, query, item.depth as nat);
        }

        let is_hit = match key_target {
            Some(key) => match &item.path_element {
                Some(JsonPath::Key(name)) => **name == *key,
                _ => false,
            },
            None => item.value.equals(target),
        };
        assert(is_hit == hit(item.value@, here, query));

        let ghost kept = path@.subrange(0, item.depth as int);
        path.truncate(item.depth);
        if let Some(element) = item.path_element {
            proof {
                lemma_steps_push(kept, element);
            }
            path.push(element);
        }
        proof {
            lemma_steps_take(path_before, item.depth as int);
        }
        assert(steps_of(path@) == here);

        let mut descend = true;
        if is_hit {
            let text = render(&path);
            paths.push(text);
            proof {
                // the paths recorded before are still there
                assert forall|i: int| 0 <= i < recorded.len() implies paths.deep_view()[i]
                    == rendered(recorded)[i] by {}
                recorded = recorded.push(here);
            }
            if let Some(max) = max_results {
                if paths.len() == max {
                    break;
                }
            }
            if search_type == SearchType::Value {
                descend = false;
            }
        }
        if descend {
            push_children(&mut stack, item.value, &path, Ghost(query));
        }
    }
    Ok(paths)
}

} // verus!
