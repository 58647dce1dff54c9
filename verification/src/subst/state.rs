//! What a substitution reads from the e-graph and writes to it.
//!
//! E-class ids and interned values are plain numbers here. A sort is handled
//! as an `egglog::ResolvedVar` that carries it.
//!
//! Tables go by their names, and an e-graph shares the register of the names with
//! its clones, those among them that `push` keeps. Reading or writing a table
//! whose name leads elsewhere panics, so the functions here that go by a name
//! ask that the e-graph [`owns`] its tables.

use egglog::{Core, Read, Write};
use egglog_numeric_id::NumericId;
use std::collections::{BTreeMap, HashMap};
use vstd::prelude::*;

verus! {

/// The name of the sort.
pub uninterp spec fn sort_name(sort: egglog::ResolvedVar) -> Seq<char>;

/// Values of the sort are e-classes.
pub uninterp spec fn is_eq_sort(sort: egglog::ResolvedVar) -> bool;

/// Values of the sort are containers.
pub uninterp spec fn is_container_sort(sort: egglog::ResolvedVar) -> bool;

/// The number of rows of each table.
pub uninterp spec fn table_rows(state: egglog::FullState<'_, '_>) -> Map<Seq<char>, nat>;

/// Whether the table of the name is a constructor's, and how many input columns
/// it has, if there is one.
pub uninterp spec fn table_shape(
    state: egglog::FullState<'_, '_>,
    table: Seq<char>,
) -> Option<(bool, nat)>;

/// The input sorts and the output sort of a constructor, if the table is one.
pub uninterp spec fn constructor_sorts(
    state: egglog::FullState<'_, '_>,
    table: Seq<char>,
) -> Option<(Seq<egglog::ResolvedVar>, egglog::ResolvedVar)>;

/// The committed rows of a constructor table for one e-class: the input
/// columns of each, and whether it is subsumed.
pub uninterp spec fn rows_of(
    state: egglog::FullState<'_, '_>,
    table: Seq<char>,
    eclass: u32,
) -> Seq<(Seq<u32>, bool)>;

/// Every name in the register of tables that `Read::table_sizes` goes through
/// leads to a table of this e-graph, with the columns and of the kind that it was
/// declared with. That is so unless a clone of the e-graph, or a state of it that
/// was popped, declared functions after the two parted.
pub uninterp spec fn owns(state: egglog::FullState<'_, '_>) -> bool;

/// The e-class of the committed row with these input columns, if the constructor
/// table has one.
pub uninterp spec fn class_at(
    state: egglog::FullState<'_, '_>,
    table: Seq<char>,
    inputs: Seq<u32>,
) -> Option<u32>;

/// The value is an interned container of the sort.
pub uninterp spec fn is_container(
    state: egglog::FullState<'_, '_>,
    sort: egglog::ResolvedVar,
    value: u32,
) -> bool;

/// What a container holds, with the sort of each value.
pub uninterp spec fn contents_of(
    state: egglog::FullState<'_, '_>,
    sort: egglog::ResolvedVar,
    value: u32,
) -> Seq<(egglog::ResolvedVar, u32)>;

/// The interned container that comes from `value` when what it holds is replaced
/// as `remap` says, if that is interned.
pub uninterp spec fn rebuild_of(
    state: egglog::FullState<'_, '_>,
    sort: egglog::ResolvedVar,
    value: u32,
    remap: Map<u32, u32>,
) -> Option<u32>;

/// The entries of a map, if the value is one.
pub uninterp spec fn map_contents(
    state: egglog::FullState<'_, '_>,
    value: u32,
) -> Option<Map<u32, u32>>;

/// One write to the e-graph.
pub enum Edit {
    /// A constructor row, with the e-class that it got.
    Add(Seq<char>, Seq<u32>, u32),
    /// A row becomes subsumed.
    Subsume(Seq<char>, Seq<u32>),
    /// Two e-classes become one.
    Union(u32, u32),
    /// A function takes a value at some inputs.
    Assign(Seq<char>, Seq<u32>, u32),
}

/// The writes that were asked for through the state so far, in order.
pub uninterp spec fn staged(state: egglog::FullState<'_, '_>) -> Seq<Edit>;

/// A write takes no container away and changes none, changes no declaration and
/// no table, and commits no row.
pub open spec fn persists(
    before: egglog::FullState<'_, '_>,
    after: egglog::FullState<'_, '_>,
) -> bool {
    &&& forall|sort: egglog::ResolvedVar, value: u32|
        is_container(before, sort, value) ==> #[trigger] is_container(after, sort, value)
    &&& forall|sort: egglog::ResolvedVar, value: u32, remap: Map<u32, u32>|
        rebuild_of(before, sort, value, remap) is Some ==> #[trigger] rebuild_of(
            after,
            sort,
            value,
            remap,
        ) == rebuild_of(before, sort, value, remap)
    &&& forall|table: Seq<char>|
        #[trigger] constructor_sorts(after, table) == constructor_sorts(before, table)
    &&& forall|table: Seq<char>, inputs: Seq<u32>|
        #[trigger] class_at(after, table, inputs) == class_at(before, table, inputs)
    &&& forall|table: Seq<char>|
        #[trigger] table_shape(after, table) == table_shape(before, table)
    &&& owns(before) ==> owns(after)
}

/// The name of a sort, by `Sort::name`.
#[verifier::external_body]
pub(crate) fn name_of_sort(sort: &egglog::ResolvedVar) -> (name: String)
    ensures
        name@ == sort_name(*sort),
{
    sort.sort.name().to_owned()
}

/// Whether values of the sort are e-classes, by `Sort::is_eq_sort`.
#[verifier::external_body]
pub(crate) fn holds_eclasses(sort: &egglog::ResolvedVar) -> (yes: bool)
    ensures
        yes == is_eq_sort(*sort),
{
    sort.sort.is_eq_sort()
}

/// Whether values of the sort are containers, by `Sort::is_container_sort`.
#[verifier::external_body]
pub(crate) fn holds_containers(sort: &egglog::ResolvedVar) -> (yes: bool)
    ensures
        yes == is_container_sort(*sort),
{
    sort.sort.is_container_sort()
}

/// The tables with their sizes, by `Read::table_sizes`: each table once. The
/// order is left open, since it is that of a hash map.
#[verifier::external_body]
pub(crate) fn table_sizes(state: &egglog::FullState<'_, '_>) -> (sizes: Vec<(String, usize)>)
    requires
        owns(*state),
    ensures
        forall|i: int|
            0 <= i < sizes@.len() ==> {
                &&& table_rows(*state).contains_key((#[trigger] sizes@[i]).0@)
                &&& table_rows(*state)[sizes@[i].0@] == sizes@[i].1
            },
        forall|table: Seq<char>| #[trigger]
            table_rows(*state).contains_key(table) ==> exists|i: int|
                0 <= i < sizes@.len() && (#[trigger] sizes@[i]).0@ == table,
        forall|i: int, j: int|
            0 <= i < j < sizes@.len() ==> (#[trigger] sizes@[i]).0@ != (#[trigger] sizes@[j]).0@,
{
    let sizes = state.table_sizes();
    sizes.into_iter().map(|(name, size)| (name.to_owned(), size)).collect()
}

/// The sorts of a constructor, by `Read::constructor_schema`: `None` where it
/// gives an error, for a table that is no constructor. The table of a constructor
/// is a constructor's and has as many input columns, if the e-graph owns it.
#[verifier::external_body]
pub(crate) fn constructor_schema(state: &egglog::FullState<'_, '_>, table: &str) -> (sorts: Option<
    (Vec<egglog::ResolvedVar>, egglog::ResolvedVar),
>)
    ensures
        match sorts {
            Some((inputs, output)) => constructor_sorts(*state, table@) == Some((inputs@, output)),
            None => constructor_sorts(*state, table@) is None,
        },
        sorts matches Some((inputs, _)) ==> owns(*state) ==> table_shape(*state, table@) == Some(
            (true, inputs@.len()),
        ),
{
    let func = state.constructor_schema(table).ok()?;
    let carry = |sort: &egglog::ArcSort| egglog::ResolvedVar {
        name: String::new(),
        sort: sort.clone(),
        is_global_ref: false,
    };
    Some((func.input.iter().map(carry).collect(), carry(&func.output)))
}

/// The contents of each list of rows.
pub open spec fn row_views(rows: Seq<(Vec<u32>, bool)>) -> Seq<(Seq<u32>, bool)> {
    rows.map_values(|row: (Vec<u32>, bool)| (row.0@, row.1))
}

/// The rows of a constructor table for one e-class, by
/// `Read::enodes_for_eclass`: each has as many columns as the table has inputs.
/// It is an error that the table is no constructor's.
#[verifier::external_body]
pub(crate) fn enodes_for_eclass(
    state: &egglog::FullState<'_, '_>,
    table: &str,
    eclass: u32,
) -> (rows: Result<Vec<(Vec<u32>, bool)>, egglog::Error>)
    requires
        owns(*state),
    ensures
        match rows {
            Ok(found) => {
                &&& row_views(found@) == rows_of(*state, table@, eclass)
                &&& table_shape(*state, table@) matches Some((true, arity))
                &&& forall|i: int| 0 <= i < found@.len() ==> (#[trigger] found@[i]).0@.len() == arity
            },
            Err(_) => match table_shape(*state, table@) {
                Some((constructor, _)) => !constructor,
                None => true,
            },
        },
{
    let mut rows = Vec::new();
    state.enodes_for_eclass(
        table,
        egglog::Value::new_const(eclass),
        |enode| rows.push((enode.children.iter().map(|child| child.rep()).collect(), enode.subsumed)),
    )?;
    Ok(rows)
}

/// What a value is replaced by: what the map gives for it, or the value itself.
pub open spec fn replacement(remap: Map<u32, u32>, value: u32) -> u32 {
    if remap.contains_key(value) {
        remap[value]
    } else {
        value
    }
}

/// What a value is replaced by.
fn replaced(remap: &HashMap<u32, u32>, value: u32) -> (image: u32)
    ensures
        image == replacement(remap@, value),
{
    broadcast use vstd::std_specs::hash::group_hash_axioms;

    match remap.get(&value) {
        Some(image) => *image,
        None => value,
    }
}

/// Replaces what a container holds and interns the result, by
/// `Core::map_container` under the type of the sort's values and with
/// [`replaced`]: `None` if and
/// only if the value is no container of the sort. It writes no row and no
/// union, and takes no container away. Where nothing is to be replaced it
/// interns nothing.
#[verifier::external_body]
pub(crate) fn map_container(
    state: &mut egglog::FullState<'_, '_>,
    sort: &egglog::ResolvedVar,
    value: u32,
    remap: &HashMap<u32, u32>,
) -> (image: Option<u32>)
    ensures
        image is Some <==> is_container(*old(state), *sort, value),
        image is Some ==> rebuild_of(*final(state), *sort, value, remap@) == image,
        staged(*final(state)) == staged(*old(state)),
        persists(*old(state), *final(state)),
        remap@.dom() == Set::<u32>::empty() ==> *final(state) == *old(state),
{
    let replace = |inner: egglog::Value| egglog::Value::new_const(replaced(remap, inner.rep()));
    let kind = sort.sort.value_type()?;
    let image = state.map_container(kind, egglog::Value::new_const(value), &replace)?;
    Some(image.rep())
}

/// The sorts and values that a container holds, by `Sort::inner_values`.
#[verifier::external_body]
pub(crate) fn inner_values(
    state: &egglog::FullState<'_, '_>,
    sort: &egglog::ResolvedVar,
    value: u32,
) -> (contents: Vec<(egglog::ResolvedVar, u32)>)
    requires
        is_container(*state, *sort, value),
    ensures
        contents@ == contents_of(*state, *sort, value),
{
    let inner = sort.sort.inner_values(state.container_values(), egglog::Value::new_const(value));
    let carry = |sort: egglog::ArcSort| egglog::ResolvedVar {
        name: String::new(),
        sort,
        is_global_ref: false,
    };
    inner.into_iter().map(|(sort, held)| (carry(sort), held.rep())).collect()
}

/// Adds a constructor row, by `Write::add`: the row gets its e-class. It is an
/// error that the table is no constructor's or has another number of inputs;
/// nothing is written then. A row that is committed already has its e-class; which
/// one another row gets is left open.
#[verifier::external_body]
pub(crate) fn add_row(
    state: &mut egglog::FullState<'_, '_>,
    table: &str,
    inputs: &Vec<u32>,
) -> (eclass: Result<u32, egglog::Error>)
    requires
        owns(*old(state)),
    ensures
        match eclass {
            Ok(got) => staged(*final(state)) == staged(*old(state)).push(
                Edit::Add(table@, inputs@, got),
            ),
            Err(_) => staged(*final(state)) == staged(*old(state)),
        },
        eclass is Ok <==> table_shape(*old(state), table@) == Some((true, inputs@.len())),
        eclass matches Ok(got) ==> (class_at(*old(state), table@, inputs@) matches Some(had)
            ==> got == had),
        persists(*old(state), *final(state)),
{
    let row = inputs.iter().map(|value| egglog::Value::new_const(*value)).collect();
    let eclass = state.add(table, egglog::RawValues(row))?;
    Ok(eclass.rep())
}

/// The e-class of a committed row, by `Read::eclass_of`: `None` where there is no
/// row with these input columns. It is an error that the table is no constructor's
/// or has another number of inputs.
#[verifier::external_body]
pub(crate) fn eclass_of(
    state: &egglog::FullState<'_, '_>,
    table: &str,
    inputs: &Vec<u32>,
) -> (found: Result<Option<u32>, egglog::Error>)
    requires
        owns(*state),
    ensures
        found is Ok <==> table_shape(*state, table@) == Some((true, inputs@.len())),
        found matches Ok(eclass) ==> eclass == class_at(*state, table@, inputs@),
{
    let row = inputs.iter().map(|value| egglog::Value::new_const(*value)).collect();
    Ok(state.eclass_of(table, egglog::RawValues(row))?.map(|value| value.rep()))
}

/// Subsumes a committed row of a constructor, by `Write::subsume`. It is an
/// error that there is no such table or that it has another number of inputs;
/// nothing is written then.
#[verifier::external_body]
pub(crate) fn subsume_row(
    state: &mut egglog::FullState<'_, '_>,
    table: &str,
    inputs: &Vec<u32>,
) -> (done: Result<(), egglog::Error>)
    requires
        owns(*old(state)),
        class_at(*old(state), table@, inputs@) is Some,
        constructor_sorts(*old(state), table@) is Some,
    ensures
        match done {
            Ok(()) => staged(*final(state)) == staged(*old(state)).push(
                Edit::Subsume(table@, inputs@),
            ),
            Err(_) => staged(*final(state)) == staged(*old(state)),
        },
        done is Ok <==> (table_shape(*old(state), table@) matches Some((_, arity)) && arity
            == inputs@.len()),
        persists(*old(state), *final(state)),
{
    let row = inputs.iter().map(|value| egglog::Value::new_const(*value)).collect();
    state.subsume(table, egglog::RawValues(row))
}

/// Unions two e-classes, by `Write::union`, which never gives an error.
#[verifier::external_body]
pub(crate) fn union_classes(
    state: &mut egglog::FullState<'_, '_>,
    left: u32,
    right: u32,
) -> (done: Result<(), egglog::Error>)
    ensures
        done is Ok,
        staged(*final(state)) == staged(*old(state)).push(Edit::Union(left, right)),
        persists(*old(state), *final(state)),
{
    state.union(egglog::Value::new_const(left), egglog::Value::new_const(right))
}

/// The entries of a map, by `Core::value_to_container` at the type of maps:
/// `None` for a value that is no map.
#[verifier::external_body]
pub(crate) fn map_entries(
    state: &egglog::FullState<'_, '_>,
    value: u32,
) -> (entries: Option<BTreeMap<u32, u32>>)
    ensures
        match entries {
            Some(found) => map_contents(*state, value) == Some(found@),
            None => map_contents(*state, value) is None,
        },
{
    let map = egglog::Value::new_const(value);
    let found = state.value_to_container::<egglog::sort::MapContainer>(map)?;
    Some(found.data.iter().map(|(key, target)| (key.rep(), target.rep())).collect())
}

/// Sets the value of a function, by `Write::set`. It is an error that the table
/// is no function's or has another number of inputs; nothing is written then.
#[verifier::external_body]
pub(crate) fn set_row(
    state: &mut egglog::FullState<'_, '_>,
    table: &str,
    inputs: &Vec<u32>,
    output: u32,
) -> (done: Result<(), egglog::Error>)
    requires
        owns(*old(state)),
    ensures
        match done {
            Ok(()) => staged(*final(state)) == staged(*old(state)).push(
                Edit::Assign(table@, inputs@, output),
            ),
            Err(_) => staged(*final(state)) == staged(*old(state)),
        },
        done is Ok <==> table_shape(*old(state), table@) == Some((false, inputs@.len())),
        persists(*old(state), *final(state)),
{
    let row = inputs.iter().map(|value| egglog::Value::new_const(*value)).collect();
    state.set(table, egglog::RawValues(row), egglog::Value::new_const(output))
}

} // verus!
