//! Order of schemas by their relations to each other.
use crate::current::{CurrentSchema, CurrentSchemaModel};
use crate::error::UpdateError;
use crate::relations::{
    has_cycle, has_links_to, has_relation_by_id, is_group, is_link, is_linked, is_mentioned,
    is_path, is_relation_by_id, is_schema_name, is_step, is_topological_order, linked_name, relates,
};
use crate::schema_file::{RelationId, SchemaField, SchemaFieldsModel, SchemaName};
use crate::text::{lemma_rearranged, sort_names, text_lt};
use topological_sort::TopologicalSort;
use vstd::prelude::*;

verus! {

/// Elements of a graph, each with the elements that it still depends on.
pub type Dependencies = Map<Seq<char>, Set<Seq<char>>>;

#[verifier::external_type_specification]
#[verifier::external_body]
#[verifier::reject_recursive_types(T)]
pub struct ExTopologicalSort<T>(TopologicalSort<T>);

/// What a `topological_sort::TopologicalSort` holds: its elements, each with those elements that
/// have to come before it and were not popped yet.
pub uninterp spec fn dependencies(graph: TopologicalSort<String>) -> Dependencies;

/// The dependencies of `element`, where an unknown element has none.
pub open spec fn dependencies_of(graph: Dependencies, element: Seq<char>) -> Set<Seq<char>> {
    if graph.contains_key(element) {
        graph[element]
    } else {
        Set::empty()
    }
}

/// `graph` with both elements in it, where `succ` depends on `prec` too.
pub open spec fn with_dependency(
    graph: Dependencies,
    prec: Seq<char>,
    succ: Seq<char>,
) -> Dependencies {
    graph.insert(prec, dependencies_of(graph, prec)).insert(
        succ,
        dependencies_of(graph, succ).insert(prec),
    )
}

/// `element` is in the graph and depends on nothing that is still in it.
pub open spec fn is_free(graph: Dependencies, element: Seq<char>) -> bool {
    graph.contains_key(element) && graph[element] =~= Set::empty()
}

/// `TopologicalSort::new` makes a graph without elements.
#[verifier::external_body]
fn new_graph() -> (graph: TopologicalSort<String>)
    ensures
        dependencies(graph) == Dependencies::empty(),
{
    TopologicalSort::new()
}

/// `TopologicalSort::insert` adds an element without dependencies where the graph lacks it, and
/// changes nothing where it is there.
#[verifier::external_body]
fn insert_element(graph: &mut TopologicalSort<String>, element: String)
    ensures
        dependencies(*final(graph)) == dependencies(*old(graph)).insert(
            element@,
            dependencies_of(dependencies(*old(graph)), element@),
        ),
{
    graph.insert(element);
}

/// `TopologicalSort::add_dependency` adds both elements and makes `succ` depend on `prec`.
#[verifier::external_body]
fn add_dependency(graph: &mut TopologicalSort<String>, prec: String, succ: String)
    ensures
        dependencies(*final(graph)) == with_dependency(dependencies(*old(graph)), prec@, succ@),
{
    graph.add_dependency(prec, succ);
}

/// `TopologicalSort::pop_all` removes the elements that depend on nothing, from the graph and from
/// the dependencies of those that stay, and returns each of them once. Their order is left open.
#[verifier::external_body]
fn pop_all(graph: &mut TopologicalSort<String>) -> (popped: Vec<String>)
    ensures
        popped.deep_view().no_duplicates(),
        forall|element: Seq<char>|
            #[trigger] popped.deep_view().contains(element) <==> is_free(
                dependencies(*old(graph)),
                element,
            ),
        forall|element: Seq<char>| #[trigger]
            dependencies(*final(graph)).contains_key(element) <==> (dependencies(
                *old(graph),
            ).contains_key(element) && !is_free(dependencies(*old(graph)), element)),
        forall|element: Seq<char>, other: Seq<char>|
            dependencies(*final(graph)).contains_key(element) ==> (
            #[trigger] dependencies(*final(graph))[element].contains(other) <==> dependencies(
                *old(graph),
            )[element].contains(other) && !is_free(dependencies(*old(graph)), other)),
{
    graph.pop_all()
}

/// `TopologicalSort::is_empty` tells whether no element is left.
#[verifier::external_body]
fn is_empty(graph: &TopologicalSort<String>) -> (empty: bool)
    ensures
        empty == (dependencies(*graph) =~= Dependencies::empty()),
{
    graph.is_empty()
}

/// The graph after the links of the schema `name` to other schemas were added.
spec fn with_links(graph: Dependencies, name: Seq<char>, fields: SchemaFieldsModel) -> Dependencies
    decreases fields.len(),
{
    if fields.len() == 0 {
        graph
    } else {
        let before = with_links(graph, name, fields.drop_last());
        match linked_name(fields.last().1) {
            Some(linked) => with_dependency(before, linked, name),
            None => before,
        }
    }
}

/// The graph of all schemas and their links.
spec fn relation_graph(schemas: Seq<CurrentSchemaModel>) -> Dependencies
    decreases schemas.len(),
{
    if schemas.len() == 0 {
        Dependencies::empty()
    } else {
        let before = relation_graph(schemas.drop_last());
        let name = schemas.last().name;
        with_links(
            before.insert(name, dependencies_of(before, name)),
            name,
            schemas.last().fields,
        )
    }
}

/// Some of the fields links to the name `to`.
spec fn links_to(fields: SchemaFieldsModel, to: Seq<char>) -> bool {
    exists|j: int| 0 <= j < fields.len() && linked_name((#[trigger] fields[j]).1) == Some(to)
}

proof fn lemma_links_to_last(fields: SchemaFieldsModel, to: Seq<char>)
    requires
        fields.len() > 0,
    ensures
        links_to(fields, to) <==> links_to(fields.drop_last(), to) || linked_name(fields.last().1)
            == Some(to),
{
    if links_to(fields.drop_last(), to) {
        let j = choose|j: int|
            0 <= j < fields.drop_last().len() && linked_name((#[trigger] fields.drop_last()[j]).1)
                == Some(to);
        assert(fields[j] == fields.drop_last()[j]);
    }
    if links_to(fields, to) {
        let j = choose|j: int|
            0 <= j < fields.len() && linked_name((#[trigger] fields[j]).1) == Some(to);
        if j < fields.len() - 1 {
            assert(fields.drop_last()[j] == fields[j]);
        }
    }
}

proof fn lemma_with_links(graph: Dependencies, name: Seq<char>, fields: SchemaFieldsModel)
    requires
        graph.contains_key(name),
        graph.dom().finite(),
    ensures
        with_links(graph, name, fields).dom().finite(),
        forall|e: Seq<char>| #[trigger]
            with_links(graph, name, fields).contains_key(e) <==> graph.contains_key(e) || links_to(
                fields,
                e,
            ),
        forall|e: Seq<char>, o: Seq<char>| #[trigger]
            dependencies_of(with_links(graph, name, fields), e).contains(o) <==> dependencies_of(
                graph,
                e,
            ).contains(o) || (e == name && links_to(fields, o)),
    decreases fields.len(),
{
    if fields.len() > 0 {
        let before = with_links(graph, name, fields.drop_last());
        lemma_with_links(graph, name, fields.drop_last());
        assert forall|e: Seq<char>| links_to(fields, e) <==> links_to(fields.drop_last(), e)
            || linked_name(fields.last().1) == Some(e) by {
            lemma_links_to_last(fields, e);
        }
        assert forall|e: Seq<char>, o: Seq<char>| #[trigger]
            dependencies_of(with_links(graph, name, fields), e).contains(o) <==> dependencies_of(
                graph,
                e,
            ).contains(o) || (e == name && links_to(fields, o)) by {
            assert(dependencies_of(before, e).contains(o) <==> dependencies_of(graph, e).contains(o)
                || (e == name && links_to(fields.drop_last(), o)));
            assert(links_to(fields, o) <==> links_to(fields.drop_last(), o) || linked_name(
                fields.last().1,
            ) == Some(o));
        }
    } else {
        assert forall|e: Seq<char>| !links_to(fields, e) by {}
    }
}

/// `relates` in terms of the last schema and those in front of it.
proof fn lemma_relates_last(schemas: Seq<CurrentSchemaModel>, from: Seq<char>, to: Seq<char>)
    requires
        schemas.len() > 0,
    ensures
        relates(schemas, from, to) <==> relates(schemas.drop_last(), from, to) || (
        schemas.last().name == from && links_to(schemas.last().fields, to)),
{
    let front = schemas.drop_last();
    if relates(front, from, to) {
        let (i, j) = choose|i: int, j: int| #[trigger] is_link(front, i, j, from, to);
        assert(is_link(schemas, i, j, from, to));
    }
    if schemas.last().name == from && links_to(schemas.last().fields, to) {
        let fields = schemas.last().fields;
        let j = choose|j: int|
            0 <= j < fields.len() && linked_name((#[trigger] fields[j]).1) == Some(to);
        assert(is_link(schemas, schemas.len() - 1, j, from, to));
    }
    if relates(schemas, from, to) {
        let (i, j) = choose|i: int, j: int| #[trigger] is_link(schemas, i, j, from, to);
        if i < schemas.len() - 1 {
            assert(is_link(front, i, j, from, to));
        } else {
            assert(linked_name(schemas.last().fields[j].1) == Some(to));
        }
    }
}

proof fn lemma_mentioned_last(schemas: Seq<CurrentSchemaModel>, name: Seq<char>)
    requires
        schemas.len() > 0,
    ensures
        is_mentioned(schemas, name) <==> is_mentioned(schemas.drop_last(), name)
            || schemas.last().name == name || links_to(schemas.last().fields, name),
{
    let front = schemas.drop_last();
    assert(is_schema_name(schemas, name) <==> is_schema_name(front, name) || schemas.last().name
        == name) by {
        if is_schema_name(front, name) {
            let i = choose|i: int| 0 <= i < front.len() && (#[trigger] front[i]).name == name;
            assert(schemas[i] == front[i]);
        }
        if is_schema_name(schemas, name) {
            let i = choose|i: int| 0 <= i < schemas.len() && (#[trigger] schemas[i]).name == name;
            if i < schemas.len() - 1 {
                assert(front[i] == schemas[i]);
            }
        }
    }
    assert forall|from: Seq<char>|
        relates(schemas, from, name) <==> relates(front, from, name) || (schemas.last().name == from
            && links_to(schemas.last().fields, name)) by {
        lemma_relates_last(schemas, from, name);
    }
    if links_to(schemas.last().fields, name) {
        assert(relates(schemas, schemas.last().name, name));
    }
}

/// The graph has the mentioned names as elements and the relations as dependencies.
proof fn lemma_relation_graph(schemas: Seq<CurrentSchemaModel>)
    ensures
        relation_graph(schemas).dom().finite(),
        forall|e: Seq<char>| #[trigger]
            relation_graph(schemas).contains_key(e) <==> is_mentioned(schemas, e),
        forall|e: Seq<char>, o: Seq<char>| #[trigger]
            dependencies_of(relation_graph(schemas), e).contains(o) <==> relates(schemas, e, o),
    decreases schemas.len(),
{
    if schemas.len() > 0 {
        let front = schemas.drop_last();
        let name = schemas.last().name;
        let before = relation_graph(front);
        lemma_relation_graph(front);
        let inserted = before.insert(name, dependencies_of(before, name));
        lemma_with_links(inserted, name, schemas.last().fields);
        assert forall|e: Seq<char>| #[trigger]
            relation_graph(schemas).contains_key(e) <==> is_mentioned(schemas, e) by {
            lemma_mentioned_last(schemas, e);
        }
        assert forall|e: Seq<char>, o: Seq<char>| #[trigger]
            dependencies_of(relation_graph(schemas), e).contains(o) <==> relates(schemas, e, o) by {
            lemma_relates_last(schemas, e, o);
            assert(dependencies_of(inserted, e) == dependencies_of(before, e));
            assert(dependencies_of(before, e).contains(o) <==> relates(front, e, o));
        }
    } else {
        assert forall|e: Seq<char>, o: Seq<char>| !relates(schemas, e, o) by {}
    }
}

/// `left` is what stays of `graph` after the elements `popped` left it, each behind those that it
/// depends on.
spec fn is_left(graph: Dependencies, left: Dependencies, popped: Seq<Seq<char>>) -> bool {
    &&& popped.no_duplicates()
    &&& forall|e: Seq<char>| #[trigger] popped.contains(e) ==> graph.contains_key(e)
    &&& forall|e: Seq<char>| #[trigger]
        left.contains_key(e) <==> graph.contains_key(e) && !popped.contains(e)
    &&& forall|e: Seq<char>, o: Seq<char>|
        left.contains_key(e) ==> (#[trigger] left[e].contains(o) <==> graph[e].contains(o)
            && !popped.contains(o))
    &&& forall|i: int, o: Seq<char>|
        0 <= i < popped.len() && #[trigger] graph[popped[i]].contains(o) ==> popped.take(
            i,
        ).contains(o)
}

/// Popping the free elements once more.
proof fn lemma_pop(
    graph: Dependencies,
    left: Dependencies,
    popped: Seq<Seq<char>>,
    next: Seq<Seq<char>>,
    rest: Dependencies,
)
    requires
        is_left(graph, left, popped),
        next.no_duplicates(),
        forall|e: Seq<char>| #[trigger] next.contains(e) <==> is_free(left, e),
        forall|e: Seq<char>| #[trigger]
            rest.contains_key(e) <==> (left.contains_key(e) && !is_free(left, e)),
        forall|e: Seq<char>, o: Seq<char>|
            rest.contains_key(e) ==> (#[trigger] rest[e].contains(o) <==> left[e].contains(o)
                && !is_free(left, o)),
    ensures
        is_left(graph, rest, popped + next),
        rest.dom() == left.dom().difference(next.to_set()),
{
    let all = popped + next;
    assert forall|e: Seq<char>| #[trigger]
        all.contains(e) <==> popped.contains(e) || next.contains(e) by {
        if popped.contains(e) {
            let i = popped.index_of(e);
            assert(all[i] == e);
        }
        if next.contains(e) {
            let i = next.index_of(e);
            assert(all[popped.len() + i] == e);
        }
    }
    assert forall|i: int, j: int| 0 <= i < j < all.len() implies all[i] != all[j] by {
        if i < popped.len() && popped.len() <= j {
            assert(popped.contains(popped[i]));
            assert(next.contains(next[j - popped.len()]));
        }
    }
    assert(all.no_duplicates());
    assert forall|i: int, o: Seq<char>|
        0 <= i < all.len() && #[trigger] graph[all[i]].contains(o) implies all.take(i).contains(
        o,
    ) by {
        if i < popped.len() {
            assert(graph[popped[i]].contains(o));
            let k = popped.take(i).index_of(o);
            assert(all.take(i)[k] == o);
        } else {
            let e = next[i - popped.len()];
            assert(next.contains(e));
            assert(is_free(left, e));
            assert(!left[e].contains(o));
            let k = popped.index_of(o);
            assert(all.take(i)[k] == o);
        }
    }
    assert forall|e: Seq<char>, o: Seq<char>| rest.contains_key(e) implies (
    #[trigger] rest[e].contains(o) <==> graph[e].contains(o) && !all.contains(o)) by {
        assert(left.contains_key(e));
        assert(left[e].contains(o) <==> graph[e].contains(o) && !popped.contains(o));
        assert(all.contains(o) <==> popped.contains(o) || next.contains(o));
    }
    assert(rest.dom() =~= left.dom().difference(next.to_set())) by {
        assert forall|e: Seq<char>| #[trigger]
            next.to_set().contains(e) <==> next.contains(e) by {}
    }
}

/// Every element depends on something.
#[verifier::opaque]
pub(crate) open spec fn is_stuck(graph: Dependencies) -> bool {
    forall|e: Seq<char>| #[trigger]
        graph.contains_key(e) ==> exists|o: Seq<char>| #[trigger] graph[e].contains(o)
}

/// The element at `i` depends on the one behind it.
pub(crate) open spec fn steps_along(graph: Dependencies, path: Seq<Seq<char>>, i: int) -> bool {
    graph[path[i]].contains(path[i + 1])
}

/// A walk of `steps` steps along dependencies.
spec fn walk(graph: Dependencies, start: Seq<char>, steps: nat) -> Seq<Seq<char>>
    decreases steps,
{
    if steps == 0 {
        seq![start]
    } else {
        let path = walk(graph, start, (steps - 1) as nat);
        path.push(choose|o: Seq<char>| graph[path.last()].contains(o))
    }
}

proof fn lemma_walk(graph: Dependencies, start: Seq<char>, steps: nat)
    requires
        graph.contains_key(start),
        is_stuck(graph),
        forall|e: Seq<char>, o: Seq<char>|
            graph.contains_key(e) && #[trigger] graph[e].contains(o) ==> graph.contains_key(o),
    ensures
        walk(graph, start, steps).len() == steps + 1,
        forall|i: int|
            0 <= i <= steps ==> graph.contains_key(#[trigger] walk(graph, start, steps)[i]),
        forall|i: int|
            0 <= i < steps ==> #[trigger] steps_along(graph, walk(graph, start, steps), i),
    decreases steps,
{
    if steps > 0 {
        let path = walk(graph, start, (steps - 1) as nat);
        lemma_walk(graph, start, (steps - 1) as nat);
        let last = path.last();
        assert(graph.contains_key(path[steps - 1]));
        let o = choose|o: Seq<char>| graph[last].contains(o);
        assert(graph[last].contains(o)) by {
            reveal(is_stuck);
        }
        let longer = walk(graph, start, steps);
        assert(longer == path.push(o));
        assert forall|i: int| 0 <= i < steps implies #[trigger] steps_along(
            graph,
            longer,
            i,
        ) by {
            if i < steps - 1 {
                assert(steps_along(graph, path, i));
            }
        }
        assert forall|i: int| 0 <= i <= steps implies graph.contains_key(#[trigger] longer[i]) by {
            if i < steps {
                assert(longer[i] == path[i]);
            }
        }
    }
}

/// Where every element depends on another one, some dependencies form a circle.
pub(crate) proof fn lemma_circle(graph: Dependencies) -> (circle: Seq<Seq<char>>)
    requires
        graph.dom().finite(),
        graph.dom().len() > 0,
        is_stuck(graph),
        forall|e: Seq<char>, o: Seq<char>|
            graph.contains_key(e) && #[trigger] graph[e].contains(o) ==> graph.contains_key(o),
    ensures
        circle.len() >= 2,
        circle.first() == circle.last(),
        forall|i: int| 0 <= i < circle.len() ==> graph.contains_key(#[trigger] circle[i]),
        forall|i: int| 0 <= i < circle.len() - 1 ==> #[trigger] steps_along(graph, circle, i),
{
    let start = graph.dom().choose();
    assert(graph.contains_key(start));
    let steps = graph.dom().len();
    let path = walk(graph, start, steps);
    lemma_walk(graph, start, steps);
    if path.no_duplicates() {
        path.unique_seq_to_set();
        assert(path.to_set().subset_of(graph.dom()));
        vstd::set_lib::lemma_len_subset(path.to_set(), graph.dom());
        assert(false);
    }
    let (i, j) = choose|i: int, j: int|
        0 <= i < path.len() && 0 <= j < path.len() && i != j && #[trigger] path[i]
            == #[trigger] path[j];
    let (low, high) = if i < j {
        (i, j)
    } else {
        (j, i)
    };
    let circle = path.subrange(low, high + 1);
    assert forall|k: int| 0 <= k < circle.len() - 1 implies #[trigger] steps_along(
        graph,
        circle,
        k,
    ) by {
        assert(steps_along(graph, path, low + k));
    }
    circle
}

/// Where every schema that is left relates to another one, schemas relate to each other in a circle.
proof fn lemma_stuck(schemas: Seq<CurrentSchemaModel>, left: Dependencies)
    requires
        left.dom().finite(),
        left.dom().len() > 0,
        is_stuck(left),
        forall|e: Seq<char>, o: Seq<char>|
            left.contains_key(e) && #[trigger] left[e].contains(o) ==> left.contains_key(o)
                && relates(schemas, e, o),
    ensures
        has_cycle(schemas),
{
    let circle = lemma_circle(left);
    assert forall|k: int| 0 <= k < circle.len() - 1 implies #[trigger] is_step(
        schemas,
        circle,
        k,
    ) by {
        assert(left.contains_key(circle[k]));
        assert(steps_along(left, circle, k));
    }
    assert(is_path(schemas, circle));
}

/// Where nothing is free and something is left, schemas relate to each other in a circle.
proof fn lemma_no_free(
    schemas: Seq<CurrentSchemaModel>,
    graph: Dependencies,
    left: Dependencies,
    popped: Seq<Seq<char>>,
    rest: Dependencies,
)
    requires
        forall|e: Seq<char>| #[trigger] graph.contains_key(e) <==> is_mentioned(schemas, e),
        forall|e: Seq<char>, o: Seq<char>|
            graph.contains_key(e) ==> (#[trigger] graph[e].contains(o) <==> relates(
                schemas,
                e,
                o,
            )),
        left.dom().finite(),
        is_left(graph, left, popped),
        forall|e: Seq<char>| #[trigger] left.contains_key(e) ==> !is_free(left, e),
        rest.dom() == left.dom(),
        !(rest =~= Dependencies::empty()),
    ensures
        has_cycle(schemas),
{
    assert(is_stuck(left)) by {
        reveal(is_stuck);
        assert forall|e: Seq<char>| #[trigger] left.contains_key(e) implies exists|o: Seq<char>|
            #[trigger] left[e].contains(o) by {
            assert(!is_free(left, e));
            assert(exists|o: Seq<char>| #[trigger] left[e].contains(o)) by {
                if forall|o: Seq<char>| !#[trigger] left[e].contains(o) {
                    assert(left[e] =~= Set::empty());
                }
            }
        }
    }
    assert forall|e: Seq<char>, o: Seq<char>|
        left.contains_key(e) && #[trigger] left[e].contains(o) implies left.contains_key(o)
        && relates(schemas, e, o) by {
        assert(graph.contains_key(e));
        assert(graph[e].contains(o));
        assert(is_mentioned(schemas, o));
    }
    assert(left.dom().len() > 0) by {
        if left.dom().len() == 0 {
            assert(rest.dom() =~= Set::empty());
            assert(rest =~= Dependencies::empty());
        }
    }
    lemma_stuck(schemas, left);
}

/// Where nothing is left, the popped elements are in topological order.
proof fn lemma_all_popped(
    schemas: Seq<CurrentSchemaModel>,
    graph: Dependencies,
    popped: Seq<Seq<char>>,
    left: Dependencies,
)
    requires
        forall|e: Seq<char>| #[trigger] graph.contains_key(e) <==> is_mentioned(schemas, e),
        forall|e: Seq<char>, o: Seq<char>|
            graph.contains_key(e) ==> (#[trigger] graph[e].contains(o) <==> relates(
                schemas,
                e,
                o,
            )),
        is_left(graph, left, popped),
        left =~= Dependencies::empty(),
    ensures
        is_topological_order(schemas, popped),
{
    assert forall|name: Seq<char>| #[trigger]
        popped.contains(name) <==> is_mentioned(schemas, name) by {
        assert(!left.contains_key(name));
        assert(graph.contains_key(name) <==> is_mentioned(schemas, name));
    }
    assert forall|i: int, to: Seq<char>|
        0 <= i < popped.len() && #[trigger] relates(schemas, popped[i], to) implies popped.take(
        i,
    ).contains(to) by {
        assert(popped.contains(popped[i]));
        assert(graph[popped[i]].contains(to));
    }
}

/// Along a path the position in a topological order falls.
proof fn lemma_descends(
    schemas: Seq<CurrentSchemaModel>,
    sorted: Seq<Seq<char>>,
    path: Seq<Seq<char>>,
    start: int,
    steps: int,
) -> (position: int)
    requires
        is_topological_order(schemas, sorted),
        is_path(schemas, path),
        0 <= start < sorted.len(),
        0 <= steps < path.len(),
        sorted[start] == path[0],
    ensures
        0 <= position <= start - steps,
        sorted[position] == path[steps],
    decreases steps,
{
    if steps == 0 {
        start
    } else {
        let before = lemma_descends(schemas, sorted, path, start, steps - 1);
        assert(is_step(schemas, path, steps - 1));
        assert(relates(schemas, sorted[before], path[steps]));
        let front = sorted.take(before);
        let position = front.index_of(path[steps]);
        assert(front[position] == path[steps]);
        position
    }
}

/// Schemas that can be brought in topological order do not relate to each other in a circle.
pub proof fn law_order_excludes_cycle(schemas: Seq<CurrentSchemaModel>, sorted: Seq<Seq<char>>)
    requires
        is_topological_order(schemas, sorted),
    ensures
        !has_cycle(schemas),
{
    if has_cycle(schemas) {
        let path = choose|path: Seq<Seq<char>>| #[trigger]
            is_path(schemas, path) && path.len() >= 2 && path.first() == path.last();
        assert(is_step(schemas, path, 0));
        let (i, j) = choose|i: int, j: int| #[trigger] is_link(schemas, i, j, path[0], path[1]);
        assert(schemas[i].name == path[0]);
        assert(is_mentioned(schemas, path[0]));
        assert(sorted.contains(path[0]));
        let start = sorted.index_of(path[0]);
        let position = lemma_descends(schemas, sorted, path, start, path.len() - 1);
        assert(sorted[position] == sorted[start]);
    }
}

/// Creates a linked dependency graph from all schemas and their relations to each other.
fn build_graph(schemas: &Vec<CurrentSchema>) -> (result: Result<
    TopologicalSort<String>,
    UpdateError,
>)
    ensures
        match result {
            Ok(graph) => !has_relation_by_id(schemas.deep_view()) && dependencies(graph)
                == relation_graph(schemas.deep_view()),
            Err(error) => has_relation_by_id(schemas.deep_view()) && error is RelationById,
        },
{
    let ghost models = schemas.deep_view();
    let mut graph = new_graph();
    for i in 0..schemas.len()
        invariant
            models == schemas.deep_view(),
            dependencies(graph) == relation_graph(models.take(i as int)),
            forall|n: int, k: int|
                0 <= n < i && 0 <= k < models[n].fields.len() ==> !is_relation_by_id(
                    (#[trigger] models[n].fields[k]).1,
                ),
    {
        let schema = &schemas[i];
        let ghost name = schema.name@;
        let ghost fields = schema.fields.deep_view();
        assert(models[i as int] == schema.deep_view());
        insert_element(&mut graph, schema.name.clone());
        let ghost inserted = dependencies(graph);
        for j in 0..schema.fields.entries.len()
            invariant
                models == schemas.deep_view(),
                0 <= i < models.len(),
                models[i as int] == schema.deep_view(),
                name == schema.name@,
                fields == schema.fields.deep_view(),
                dependencies(graph) == with_links(inserted, name, fields.take(j as int)),
                forall|k: int| 0 <= k < j ==> !is_relation_by_id((#[trigger] fields[k]).1),
        {
            let (_, field) = &schema.fields.entries[j];
            assert(fields[j as int].1 == field.deep_view());
            assert(fields.take(j + 1).drop_last() =~= fields.take(j as int));
            match field {
                SchemaField::Relation { schema: linked, .. } => match &linked.id {
                    RelationId::Name(linked_name) => {
                        add_dependency(&mut graph, linked_name.clone(), schema.name.clone());
                    },
                    RelationId::Id(_) => {
                        assert(is_relation_by_id(models[i as int].fields[j as int].1));
                        return Err(UpdateError::RelationById);
                    },
                },
                SchemaField::Field { .. } => {},
            }
        }
        assert(fields.take(fields.len() as int) =~= fields);
        assert(models.take(i + 1).drop_last() =~= models.take(i as int));
    }
    assert(models.take(models.len() as int) =~= models);
    Ok(graph)
}

/// Names of schemas, sorted by their relations to each other.
#[derive(Debug)]
pub struct SortedSchemas {
    /// The groups, by name: the schemas that no other one relates to.
    pub groups: Vec<SchemaName>,
    /// All schemas, each behind those that it relates to.
    pub sorted: Vec<SchemaName>,
}

/// Picks the groups from all schemas and sorts them by name.
fn get_groups(schemas: &Vec<CurrentSchema>, sorted: &Vec<SchemaName>) -> (groups: Vec<SchemaName>)
    requires
        is_topological_order(schemas.deep_view(), sorted.deep_view()),
    ensures
        forall|i: int, j: int|
            0 <= i < j < groups@.len() ==> text_lt(#[trigger] groups@[i]@, #[trigger] groups@[j]@),
        forall|name: Seq<char>| #[trigger]
            groups.deep_view().contains(name) <==> is_group(schemas.deep_view(), name),
{
    let ghost models = schemas.deep_view();
    let ghost all = sorted.deep_view();
    let mut groups: Vec<SchemaName> = Vec::new();
    assert(groups.deep_view() =~= Seq::empty());
    for i in 0..sorted.len()
        invariant
            models == schemas.deep_view(),
            all == sorted.deep_view(),
            all.no_duplicates(),
            groups.deep_view().no_duplicates(),
            forall|name: Seq<char>| #[trigger]
                groups.deep_view().contains(name) <==> all.take(i as int).contains(name)
                    && !is_linked(models, name),
    {
        let ghost before = groups.deep_view();
        let ghost name = all[i as int];
        proof {
            lemma_push_contains(all.take(i as int), name);
            assert(all.take(i + 1) =~= all.take(i as int).push(name));
            lemma_push_contains(before, name);
            if all.take(i as int).contains(name) {
                let k = all.take(i as int).index_of(name);
                assert(all[k] == all[i as int]);
            }
        }
        if !has_links_to(schemas, &sorted[i]) {
            groups.push(sorted[i].clone());
            assert(groups.deep_view() =~= before.push(name));
        }
    }
    let ghost unsorted = groups.deep_view();
    sort_names(&mut groups);
    proof {
        assert(all.take(all.len() as int) =~= all);
        lemma_rearranged(unsorted, groups.deep_view());
        assert forall|i: int, j: int| 0 <= i < j < groups@.len() implies text_lt(
            #[trigger] groups@[i]@,
            #[trigger] groups@[j]@,
        ) by {
            assert(groups.deep_view()[i] != groups.deep_view()[j]);
        }
        assert forall|name: Seq<char>| #[trigger]
            groups.deep_view().contains(name) <==> is_group(models, name) by {
            assert(unsorted.contains(name) <==> all.contains(name) && !is_linked(models, name));
            assert(all.contains(name) <==> is_mentioned(models, name));
        }
    }
    groups
}

/// What a list holds with one text more.
proof fn lemma_push_contains(texts: Seq<Seq<char>>, text: Seq<char>)
    ensures
        forall|other: Seq<char>| #[trigger]
            texts.push(text).contains(other) <==> texts.contains(other) || other == text,
        texts.no_duplicates() && !texts.contains(text) ==> texts.push(text).no_duplicates(),
{
    let more = texts.push(text);
    assert forall|other: Seq<char>| #[trigger] more.contains(other) <==> texts.contains(other)
        || other == text by {
        if texts.contains(other) {
            assert(more[texts.index_of(other)] == other);
        }
        assert(more[texts.len() as int] == text);
        if more.contains(other) && other != text {
            let i = more.index_of(other);
            assert(texts[i] == other);
        }
    }
}

/// Sorts schemas topologically.
///
/// Fails where a relation refers to its schema by id, else where schemas relate to each other in a
/// circle. The order of those schemas that may come in any order is left open.
pub fn sort_schemas(schemas: &Vec<CurrentSchema>) -> (result: Result<SortedSchemas, UpdateError>)
    ensures
        match result {
            Ok(names) => {
                &&& !has_relation_by_id(schemas.deep_view())
                &&& !has_cycle(schemas.deep_view())
                &&& is_topological_order(schemas.deep_view(), names.sorted.deep_view())
                &&& forall|i: int, j: int|
                    0 <= i < j < names.groups@.len() ==> text_lt(
                        #[trigger] names.groups@[i]@,
                        #[trigger] names.groups@[j]@,
                    )
                &&& forall|name: Seq<char>| #[trigger]
                    names.groups.deep_view().contains(name) <==> is_group(
                        schemas.deep_view(),
                        name,
                    )
            },
            Err(UpdateError::RelationById) => has_relation_by_id(schemas.deep_view()),
            Err(UpdateError::CyclicRelations) => !has_relation_by_id(schemas.deep_view())
                && has_cycle(schemas.deep_view()),
            Err(_) => false,
        },
{
    let ghost models = schemas.deep_view();
    let mut graph = match build_graph(schemas) {
        Ok(graph) => graph,
        Err(error) => return Err(error),
    };
    let ghost whole = dependencies(graph);
    proof {
        lemma_relation_graph(models);
        assert forall|e: Seq<char>, o: Seq<char>| whole.contains_key(e) implies (
        #[trigger] whole[e].contains(o) <==> relates(models, e, o)) by {
            assert(dependencies_of(whole, e).contains(o) <==> relates(models, e, o));
        }
    }
    // Pop schemas which do not depend on any that is left, until all are sorted
    let mut sorted: Vec<SchemaName> = Vec::new();
    assert(sorted.deep_view() =~= Seq::empty());
    loop
        invariant
            models == schemas.deep_view(),
            !has_relation_by_id(models),
            forall|e: Seq<char>| #[trigger] whole.contains_key(e) <==> is_mentioned(models, e),
            forall|e: Seq<char>, o: Seq<char>|
                whole.contains_key(e) ==> (#[trigger] whole[e].contains(o) <==> relates(
                    models,
                    e,
                    o,
                )),
            dependencies(graph).dom().finite(),
            is_left(whole, dependencies(graph), sorted.deep_view()),
        ensures
            is_topological_order(models, sorted.deep_view()),
        decreases dependencies(graph).dom().len(),
    {
        let ghost left = dependencies(graph);
        let ghost popped = sorted.deep_view();
        let mut next = pop_all(&mut graph);
        let ghost names = next.deep_view();
        proof {
            lemma_pop(whole, left, popped, names, dependencies(graph));
        }
        if next.len() == 0 && !is_empty(&graph) {
            proof {
                assert forall|e: Seq<char>| #[trigger] left.contains_key(e) implies !is_free(
                    left,
                    e,
                ) by {
                    assert(!names.contains(e));
                }
                assert(dependencies(graph).dom() =~= left.dom());
                lemma_no_free(models, whole, left, popped, dependencies(graph));
            }
            return Err(UpdateError::CyclicRelations);
        } else if next.len() == 0 {
            proof {
                lemma_all_popped(models, whole, popped + names, dependencies(graph));
                assert(popped + names =~= popped);
            }
            break;
        } else {
            proof {
                let rest = dependencies(graph);
                let first = names[0];
                assert(names.contains(first));
                assert(rest.dom().subset_of(left.dom().remove(first)));
                vstd::set_lib::lemma_len_subset(rest.dom(), left.dom().remove(first));
            }
            sorted.append(&mut next);
            assert(sorted.deep_view() =~= popped + names);
        }
    }
    proof {
        law_order_excludes_cycle(models, sorted.deep_view());
    }
    let groups = get_groups(schemas, &sorted);
    Ok(SortedSchemas { groups, sorted })
}

} // verus!
