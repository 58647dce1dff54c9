//! The copy of the affected e-classes.

use std::collections::{BTreeMap, HashMap, HashSet};
use vstd::prelude::*;
use crate::lists::lemma_push_contains;
use crate::subst::collect::{all_shaped, is_row, is_shaped, shows, Constructor};
use crate::subst::forecast::{
    all_copyable, all_stand, are_naming, entry, has_subsumed, is_naming, lemma_copy_stands,
    lemma_ready_carries, stands,
};
use crate::subst::graph::{child_leaves, leaves, Child, Container, ENode, Snapshot};
use crate::subst::order::copied_classes;
use crate::subst::plan::{grounded, node_ready, resolved};
use crate::subst::state::{
    add_row, class_at, constructor_sorts, is_container, map_container, owns, persists, rebuild_of,
    staged, subsume_row, union_classes, Edit,
};

verus! {

broadcast use {
    vstd::std_specs::hash::group_hash_axioms,
    vstd::std_specs::btree::group_btree_axioms,
};

/// The copy that stands for an e-class: its target if it is a key, itself if
/// it is not affected, else its image, once there is one.
pub open spec fn class_image(
    map: Map<u32, u32>,
    affected: Set<u32>,
    images: Map<u32, u32>,
    class: u32,
) -> Option<u32> {
    if map.contains_key(class) {
        Some(map[class])
    } else if !affected.contains(class) {
        Some(class)
    } else if images.contains_key(class) {
        Some(images[class])
    } else {
        None
    }
}

/// Finds the copy that stands for an e-class.
pub(crate) fn eclass_image(
    map: &BTreeMap<u32, u32>,
    affected: &HashSet<u32>,
    images: &HashMap<u32, u32>,
    class: u32,
) -> (image: Option<u32>)
    ensures
        image == class_image(map@, affected@, images@, class),
{
    match map.get(&class) {
        Some(target) => Some(*target),
        None => {
            if !affected.contains(&class) {
                Some(class)
            } else {
                match images.get(&class) {
                    Some(image) => Some(*image),
                    None => None,
                }
            }
        },
    }
}

/// The value of a column.
pub open spec fn child_value(child: Child) -> u32 {
    match child {
        Child::Class(value, _) => value,
        Child::Container(container) => container.value,
        Child::Opaque(value) => value,
    }
}

/// What changes inside a container: each value whose image differs, with its
/// image.
pub open spec fn replacements(contents: Seq<Child>, inner: Seq<u32>) -> Map<u32, u32>
    decreases contents.len(),
{
    if contents.len() == 0 {
        Map::empty()
    } else {
        let front = replacements(contents.drop_last(), inner.drop_last());
        if inner.last() != child_value(contents.last()) {
            front.insert(child_value(contents.last()), inner.last())
        } else {
            front
        }
    }
}

/// `image` is a container with its contents substituted: the container itself
/// if nothing inside it changes, else its rebuild.
pub open spec fn is_container_image(
    state: egglog::FullState<'_, '_>,
    container: Container,
    inner: Seq<u32>,
    image: u32,
) -> bool {
    let changed = replacements(container.contents@, inner);
    if changed.dom() == Set::<u32>::empty() {
        image == container.value
    } else {
        rebuild_of(state, container.sort, container.value, changed) == Some(image)
    }
}

/// `image` is the column with the substitution carried through it.
pub open spec fn is_image(
    state: egglog::FullState<'_, '_>,
    map: Map<u32, u32>,
    affected: Set<u32>,
    images: Map<u32, u32>,
    child: Child,
    image: u32,
) -> bool
    decreases child,
{
    match child {
        Child::Class(value, _) => class_image(map, affected, images, value) == Some(image),
        Child::Opaque(value) => image == value,
        Child::Container(container) => exists|inner: Seq<u32>|
            {
                &&& inner.len() == container.contents@.len()
                &&& forall|j: int|
                    0 <= j < container.contents@.len() ==> is_image(
                        state,
                        map,
                        affected,
                        images,
                        #[trigger] container.contents@[j],
                        inner[j],
                    )
                &&& #[trigger] is_container_image(state, container, inner, image)
            },
    }
}

/// `inputs` are the columns with the substitution carried through them.
pub open spec fn are_images(
    state: egglog::FullState<'_, '_>,
    map: Map<u32, u32>,
    affected: Set<u32>,
    images: Map<u32, u32>,
    children: Seq<Child>,
    inputs: Seq<u32>,
) -> bool {
    &&& inputs.len() == children.len()
    &&& forall|j: int|
        0 <= j < children.len() ==> is_image(
            state,
            map,
            affected,
            images,
            #[trigger] children[j],
            inputs[j],
        )
}

/// Every container in the column is interned.
pub open spec fn is_interned(state: egglog::FullState<'_, '_>, child: Child) -> bool
    decreases child,
{
    match child {
        Child::Container(container) => {
            &&& is_container(state, container.sort, container.value)
            &&& forall|j: int|
                0 <= j < container.contents@.len() ==> is_interned(
                    state,
                    #[trigger] container.contents@[j],
                )
        },
        _ => true,
    }
}

proof fn lemma_shown_is_interned(
    state: egglog::FullState<'_, '_>,
    sort: egglog::ResolvedVar,
    value: u32,
    child: Child,
    path: Seq<u32>,
)
    requires
        shows(state, sort, value, child, path),
    ensures
        is_interned(state, child),
    decreases child,
{
    match child {
        Child::Container(container) => {
            let inner = crate::subst::state::contents_of(state, sort, value);
            assert forall|j: int| 0 <= j < container.contents@.len() implies is_interned(
                state,
                #[trigger] container.contents@[j],
            ) by {
                lemma_shown_is_interned(
                    state,
                    inner[j].0,
                    inner[j].1,
                    container.contents@[j],
                    path.push(value),
                );
            }
        },
        _ => {},
    }
}

proof fn lemma_interned_persists(
    before: egglog::FullState<'_, '_>,
    after: egglog::FullState<'_, '_>,
    child: Child,
)
    requires
        persists(before, after),
        is_interned(before, child),
    ensures
        is_interned(after, child),
    decreases child,
{
    match child {
        Child::Container(container) => {
            assert forall|j: int| 0 <= j < container.contents@.len() implies is_interned(
                after,
                #[trigger] container.contents@[j],
            ) by {
                lemma_interned_persists(before, after, container.contents@[j]);
            }
        },
        _ => {},
    }
}

/// Every e-class of the list has a copy that stands for it.
pub open spec fn all_imaged(
    map: Map<u32, u32>,
    affected: Set<u32>,
    images: Map<u32, u32>,
    classes: Seq<u32>,
) -> bool {
    forall|i: int|
        0 <= i < classes.len() ==> class_image(
            map,
            affected,
            images,
            #[trigger] classes[i],
        ) is Some
}

proof fn lemma_leaves_of_member(children: Seq<Child>, j: int, leaf: u32)
    requires
        0 <= j < children.len(),
        child_leaves(children[j]).contains(leaf),
    ensures
        leaves(children).contains(leaf),
    decreases children.len(),
{
    let front = leaves(children.drop_last());
    let back = child_leaves(children.last());
    if j == children.len() - 1 {
        let i = back.index_of(leaf);
        assert((front + back)[front.len() + i] == leaf);
    } else {
        lemma_leaves_of_member(children.drop_last(), j, leaf);
        let i = front.index_of(leaf);
        assert((front + back)[i] == leaf);
    }
}

proof fn lemma_member_imaged(
    map: Map<u32, u32>,
    affected: Set<u32>,
    images: Map<u32, u32>,
    children: Seq<Child>,
    j: int,
)
    requires
        0 <= j < children.len(),
        all_imaged(map, affected, images, leaves(children)),
    ensures
        all_imaged(map, affected, images, child_leaves(children[j])),
{
    let own = child_leaves(children[j]);
    assert forall|i: int| 0 <= i < own.len() implies class_image(
        map,
        affected,
        images,
        #[trigger] own[i],
    ) is Some by {
        lemma_leaves_of_member(children, j, own[i]);
        let k = leaves(children).index_of(own[i]);
        assert(leaves(children)[k] == own[i]);
    }
}

/// Carries the substitution through a column. Whatever container it interns,
/// it writes no row.
fn copy_child(
    state: &mut egglog::FullState<'_, '_>,
    map: &BTreeMap<u32, u32>,
    affected: &HashSet<u32>,
    images: &HashMap<u32, u32>,
    child: &Child,
) -> (image: u32)
    requires
        all_imaged(map@, affected@, images@, child_leaves(*child)),
        is_interned(*old(state), *child),
    ensures
        is_image(*final(state), map@, affected@, images@, *child, image),
        staged(*final(state)) == staged(*old(state)),
        persists(*old(state), *final(state)),
    decreases child,
{
    let ghost base = *state;
    match child {
        Child::Opaque(value) => *value,
        Child::Class(value, _) => {
            assert(child_leaves(*child)[0] == *value);
            match eclass_image(map, affected, images, *value) {
                Some(image) => image,
                None => {
                    assert(false);
                    *value
                },
            }
        },
        Child::Container(container) => {
            let contents = &container.contents;
            let ghost mut inner: Seq<u32> = Seq::empty();
            let mut remap: HashMap<u32, u32> = HashMap::new();
            let mut changes: bool = false;
            proof {
                assert(contents@.take(0) =~= Seq::<Child>::empty());
                assert(remap@ =~= replacements(contents@.take(0), inner));
            }
            for j in 0..contents.len()
                invariant
                    child is Container,
                    *container == child->Container_0,
                    contents@ == container.contents@,
                    all_imaged(map@, affected@, images@, leaves(contents@)),
                    is_interned(base, *child),
                    persists(base, *state),
                    staged(*state) == staged(base),
                    inner.len() == j,
                    forall|i: int|
                        0 <= i < j ==> is_image(
                            *state,
                            map@,
                            affected@,
                            images@,
                            #[trigger] contents@[i],
                            inner[i],
                        ),
                    remap@ == replacements(contents@.take(j as int), inner),
                    changes <==> remap@.dom() != Set::<u32>::empty(),
            {
                let held = &contents[j];
                proof {
                    lemma_member_imaged(map@, affected@, images@, contents@, j as int);
                    assert(is_interned(base, container.contents@[j as int]));
                    lemma_interned_persists(base, *state, *held);
                }
                let ghost before = *state;
                let image = copy_child(state, map, affected, images, held);
                let value = match held {
                    Child::Class(value, _) => *value,
                    Child::Container(nested) => nested.value,
                    Child::Opaque(value) => *value,
                };
                let ghost had = inner;
                let ghost mapped = remap@;
                if image != value {
                    remap.insert(value, image);
                    changes = true;
                }
                proof {
                    inner = inner.push(image);
                    assert(contents@.take(j + 1).drop_last() =~= contents@.take(j as int));
                    assert(inner.drop_last() =~= had);
                    if image != value {
                        assert(remap@.dom().contains(value));
                    }
                    assert forall|i: int| 0 <= i < j + 1 implies is_image(
                        *state,
                        map@,
                        affected@,
                        images@,
                        #[trigger] contents@[i],
                        inner[i],
                    ) by {
                        if i < j {
                            assert(inner[i] == had[i]);
                            lemma_image_stays(
                                before,
                                *state,
                                map@,
                                affected@,
                                images@,
                                images@,
                                contents@[i],
                                inner[i],
                            );
                        }
                    }
                }
            }
            assert(contents@.take(contents@.len() as int) =~= contents@);
            let ghost filled = *state;
            let image = if !changes {
                container.value
            } else {
                match map_container(state, &container.sort, container.value, &remap) {
                    Some(image) => image,
                    None => {
                        assert(false);
                        container.value
                    },
                }
            };
            proof {
                assert forall|i: int| 0 <= i < contents@.len() implies is_image(
                    *state,
                    map@,
                    affected@,
                    images@,
                    #[trigger] contents@[i],
                    inner[i],
                ) by {
                    if changes {
                        lemma_image_stays(
                            filled,
                            *state,
                            map@,
                            affected@,
                            images@,
                            images@,
                            contents@[i],
                            inner[i],
                        );
                    }
                }
                assert(is_container_image(*state, *container, inner, image));
            }
            image
        },
    }
}

/// The row can be copied as far as the state goes: its constructor is one, and
/// the containers in its columns are interned.
pub open spec fn is_copyable(
    state: egglog::FullState<'_, '_>,
    list: Seq<Constructor>,
    node: ENode,
) -> bool {
    &&& node.ctor < list.len()
    &&& constructor_sorts(state, list[node.ctor as int].name@) is Some
    &&& node.deps@ == leaves(node.children@)
    &&& forall|j: int|
        0 <= j < node.children@.len() ==> is_interned(state, #[trigger] node.children@[j])
}

pub(crate) proof fn lemma_copyable_persists(
    before: egglog::FullState<'_, '_>,
    after: egglog::FullState<'_, '_>,
    list: Seq<Constructor>,
    node: ENode,
)
    requires
        persists(before, after),
        is_copyable(before, list, node),
    ensures
        is_copyable(after, list, node),
{
    assert forall|j: int| 0 <= j < node.children@.len() implies is_interned(
        after,
        #[trigger] node.children@[j],
    ) by {
        lemma_interned_persists(before, after, node.children@[j]);
    }
}

/// A row that was read from the state can be copied as far as the state goes.
pub proof fn lemma_read_is_copyable(
    state: egglog::FullState<'_, '_>,
    list: Seq<Constructor>,
    node: ENode,
    row: (int, Seq<u32>, bool),
)
    requires
        is_row(state, list, node, row),
        constructor_sorts(state, list[row.0].name@) is Some,
    ensures
        is_copyable(state, list, node),
{
    assert forall|j: int| 0 <= j < node.children@.len() implies is_interned(
        state,
        #[trigger] node.children@[j],
    ) by {
        lemma_shown_is_interned(
            state,
            list[row.0].inputs@[j],
            row.1[j],
            node.children@[j],
            Seq::empty(),
        );
    }
}

/// Carries the substitution through the columns of a row whose references all have
/// copies. Whatever container it interns, it writes no row.
pub(crate) fn copy_inputs(
    state: &mut egglog::FullState<'_, '_>,
    list: &Vec<Constructor>,
    map: &BTreeMap<u32, u32>,
    affected: &HashSet<u32>,
    images: &HashMap<u32, u32>,
    node: &ENode,
) -> (inputs: Vec<u32>)
    requires
        is_copyable(*old(state), list@, *node),
        all_imaged(map@, affected@, images@, leaves(node.children@)),
    ensures
        are_images(*final(state), map@, affected@, images@, node.children@, inputs@),
        staged(*final(state)) == staged(*old(state)),
        persists(*old(state), *final(state)),
{
    let ghost base = *state;
    let mut inputs: Vec<u32> = Vec::new();
    for j in 0..node.children.len()
        invariant
            base == *old(state),
            is_copyable(base, list@, *node),
            all_imaged(map@, affected@, images@, leaves(node.children@)),
            persists(base, *state),
            staged(*state) == staged(base),
            inputs@.len() == j,
            forall|i: int|
                0 <= i < j ==> is_image(
                    *state,
                    map@,
                    affected@,
                    images@,
                    #[trigger] node.children@[i],
                    inputs@[i],
                ),
    {
        let ghost earlier = *state;
        let ghost had = inputs@;
        proof {
            lemma_member_imaged(map@, affected@, images@, node.children@, j as int);
            lemma_interned_persists(base, *state, node.children@[j as int]);
        }
        let image = copy_child(state, map, affected, images, &node.children[j]);
        inputs.push(image);
        proof {
            assert forall|i: int| 0 <= i < j + 1 implies is_image(
                *state,
                map@,
                affected@,
                images@,
                #[trigger] node.children@[i],
                inputs@[i],
            ) by {
                if i < j {
                    assert(inputs@[i] == had[i]);
                    lemma_image_stays(
                        earlier,
                        *state,
                        map@,
                        affected@,
                        images@,
                        images@,
                        node.children@[i],
                        inputs@[i],
                    );
                }
            }
        }
    }
    inputs
}

/// The copy of the row is committed.
pub open spec fn has_copy(
    state: egglog::FullState<'_, '_>,
    list: Seq<Constructor>,
    map: Map<u32, u32>,
    affected: Set<u32>,
    images: Map<u32, u32>,
    node: ENode,
) -> bool {
    exists|inputs: Seq<u32>|
        {
            &&& #[trigger] are_images(state, map, affected, images, node.children@, inputs)
            &&& class_at(state, list[node.ctor as int].name@, inputs) is Some
        }
}

/// What adding a row and giving it its status writes.
pub open spec fn row_changes(
    table: Seq<char>,
    inputs: Seq<u32>,
    eclass: u32,
    subsumed: bool,
) -> Seq<Edit> {
    if subsumed {
        seq![Edit::Add(table, inputs, eclass), Edit::Subsume(table, inputs)]
    } else {
        seq![Edit::Add(table, inputs, eclass)]
    }
}

/// Copies one row whose references all have copies. A row that is subsumed
/// stays so: its copy, which has to be committed, is subsumed.
fn copy_row(
    state: &mut egglog::FullState<'_, '_>,
    list: &Vec<Constructor>,
    map: &BTreeMap<u32, u32>,
    affected: &HashSet<u32>,
    images: &HashMap<u32, u32>,
    node: &ENode,
) -> (copy: (Vec<u32>, u32))
    requires
        owns(*old(state)),
        is_copyable(*old(state), list@, *node),
        is_shaped(*old(state), list@, *node),
        all_imaged(map@, affected@, images@, leaves(node.children@)),
        node.subsumed ==> has_copy(*old(state), list@, map@, affected@, images@, *node),
    ensures
        persists(*old(state), *final(state)),
        are_images(*final(state), map@, affected@, images@, node.children@, copy.0@),
        staged(*final(state)) == staged(*old(state)) + row_changes(
            list@[node.ctor as int].name@,
            copy.0@,
            copy.1,
            node.subsumed,
        ),
        class_at(*old(state), list@[node.ctor as int].name@, copy.0@) matches Some(had) ==> copy.1
            == had,
        node.subsumed ==> class_at(*old(state), list@[node.ctor as int].name@, copy.0@) is Some,
{
    let ghost base = *state;
    let inputs = copy_inputs(state, list, map, affected, images, node);
    let ghost filled = *state;
    proof {
        if node.subsumed {
            let known = choose|known: Seq<u32>|
                {
                    &&& #[trigger] are_images(
                        base,
                        map@,
                        affected@,
                        images@,
                        node.children@,
                        known,
                    )
                    &&& class_at(base, list@[node.ctor as int].name@, known) is Some
                };
            lemma_images_stay(
                base,
                filled,
                map@,
                affected@,
                images@,
                images@,
                node.children@,
                known,
            );
            lemma_images_unique(
                filled,
                map@,
                affected@,
                images@,
                node.children@,
                known,
                inputs@,
            );
        }
    }
    let table = list[node.ctor].name.as_str();
    let eclass = match add_row(state, table, &inputs) {
        Ok(eclass) => eclass,
        Err(_) => vstd::pervasive::unreached(),
    };
    if node.subsumed {
        match subsume_row(state, table, &inputs) {
            Ok(_) => {},
            Err(_) => vstd::pervasive::unreached(),
        }
    }
    proof {
        lemma_images_stay(
            filled,
            *state,
            map@,
            affected@,
            images@,
            images@,
            node.children@,
            inputs@,
        );
        assert(staged(*state) =~= staged(base) + row_changes(
            table@,
            inputs@,
            eclass,
            node.subsumed,
        ));
    }
    (inputs, eclass)
}

/// A column has one image.
proof fn lemma_image_unique(
    state: egglog::FullState<'_, '_>,
    map: Map<u32, u32>,
    affected: Set<u32>,
    images: Map<u32, u32>,
    child: Child,
    image: u32,
    other: u32,
)
    requires
        is_image(state, map, affected, images, child, image),
        is_image(state, map, affected, images, child, other),
    ensures
        image == other,
    decreases child,
{
    match child {
        Child::Container(container) => {
            let contents = container.contents@;
            let inner = choose|inner: Seq<u32>|
                {
                    &&& inner.len() == contents.len()
                    &&& forall|j: int|
                        0 <= j < contents.len() ==> is_image(
                            state,
                            map,
                            affected,
                            images,
                            #[trigger] contents[j],
                            inner[j],
                        )
                    &&& #[trigger] is_container_image(state, container, inner, image)
                };
            let held = choose|held: Seq<u32>|
                {
                    &&& held.len() == contents.len()
                    &&& forall|j: int|
                        0 <= j < contents.len() ==> is_image(
                            state,
                            map,
                            affected,
                            images,
                            #[trigger] contents[j],
                            held[j],
                        )
                    &&& #[trigger] is_container_image(state, container, held, other)
                };
            assert forall|j: int| 0 <= j < contents.len() implies inner[j] == held[j] by {
                lemma_image_unique(state, map, affected, images, contents[j], inner[j], held[j]);
            }
            assert(inner =~= held);
        },
        _ => {},
    }
}

pub(crate) proof fn lemma_images_unique(
    state: egglog::FullState<'_, '_>,
    map: Map<u32, u32>,
    affected: Set<u32>,
    images: Map<u32, u32>,
    children: Seq<Child>,
    inputs: Seq<u32>,
    others: Seq<u32>,
)
    requires
        are_images(state, map, affected, images, children, inputs),
        are_images(state, map, affected, images, children, others),
    ensures
        inputs == others,
{
    assert forall|j: int| 0 <= j < children.len() implies inputs[j] == others[j] by {
        lemma_image_unique(state, map, affected, images, children[j], inputs[j], others[j]);
    }
    assert(inputs =~= others);
}

/// What stands for an e-class under `images` stands for it under `more`.
pub open spec fn carries(
    map: Map<u32, u32>,
    affected: Set<u32>,
    images: Map<u32, u32>,
    more: Map<u32, u32>,
    classes: Seq<u32>,
) -> bool {
    forall|i: int|
        0 <= i < classes.len() ==> {
            let image = class_image(map, affected, images, #[trigger] classes[i]);
            image is Some ==> class_image(map, affected, more, classes[i]) == image
        }
}

proof fn lemma_carries_member(
    map: Map<u32, u32>,
    affected: Set<u32>,
    images: Map<u32, u32>,
    more: Map<u32, u32>,
    children: Seq<Child>,
    j: int,
)
    requires
        0 <= j < children.len(),
        carries(map, affected, images, more, leaves(children)),
    ensures
        carries(map, affected, images, more, child_leaves(children[j])),
{
    let own = child_leaves(children[j]);
    assert forall|i: int| 0 <= i < own.len() implies {
        let image = class_image(map, affected, images, #[trigger] own[i]);
        image is Some ==> class_image(map, affected, more, own[i]) == image
    } by {
        lemma_leaves_of_member(children, j, own[i]);
        let k = leaves(children).index_of(own[i]);
        assert(leaves(children)[k] == own[i]);
    }
}

/// The image of a column stays what it is when more is written and its e-classes
/// keep what stands for them.
proof fn lemma_image_carries(
    before: egglog::FullState<'_, '_>,
    after: egglog::FullState<'_, '_>,
    map: Map<u32, u32>,
    affected: Set<u32>,
    images: Map<u32, u32>,
    more: Map<u32, u32>,
    child: Child,
    image: u32,
)
    requires
        persists(before, after),
        carries(map, affected, images, more, child_leaves(child)),
        is_image(before, map, affected, images, child, image),
    ensures
        is_image(after, map, affected, more, child, image),
    decreases child,
{
    match child {
        Child::Class(value, _) => {
            assert(child_leaves(child)[0] == value);
        },
        Child::Container(container) => {
            let contents = container.contents@;
            let inner = choose|inner: Seq<u32>|
                {
                    &&& inner.len() == contents.len()
                    &&& forall|j: int|
                        0 <= j < contents.len() ==> is_image(
                            before,
                            map,
                            affected,
                            images,
                            #[trigger] contents[j],
                            inner[j],
                        )
                    &&& #[trigger] is_container_image(before, container, inner, image)
                };
            assert forall|j: int| 0 <= j < contents.len() implies is_image(
                after,
                map,
                affected,
                more,
                #[trigger] contents[j],
                inner[j],
            ) by {
                lemma_carries_member(map, affected, images, more, contents, j);
                lemma_image_carries(
                    before,
                    after,
                    map,
                    affected,
                    images,
                    more,
                    contents[j],
                    inner[j],
                );
            }
            assert(is_container_image(after, container, inner, image));
        },
        Child::Opaque(_) => {},
    }
}

pub(crate) proof fn lemma_images_carry(
    before: egglog::FullState<'_, '_>,
    after: egglog::FullState<'_, '_>,
    map: Map<u32, u32>,
    affected: Set<u32>,
    images: Map<u32, u32>,
    more: Map<u32, u32>,
    children: Seq<Child>,
    inputs: Seq<u32>,
)
    requires
        persists(before, after),
        carries(map, affected, images, more, leaves(children)),
        are_images(before, map, affected, images, children, inputs),
    ensures
        are_images(after, map, affected, more, children, inputs),
{
    assert forall|j: int| 0 <= j < children.len() implies is_image(
        after,
        map,
        affected,
        more,
        #[trigger] children[j],
        inputs[j],
    ) by {
        lemma_carries_member(map, affected, images, more, children, j);
        lemma_image_carries(before, after, map, affected, images, more, children[j], inputs[j]);
    }
}

/// The copies that were made before stay what they are when more is written
/// and more e-classes have images.
proof fn lemma_image_stays(
    before: egglog::FullState<'_, '_>,
    after: egglog::FullState<'_, '_>,
    map: Map<u32, u32>,
    affected: Set<u32>,
    images: Map<u32, u32>,
    more: Map<u32, u32>,
    child: Child,
    image: u32,
)
    requires
        persists(before, after),
        images.submap_of(more),
        is_image(before, map, affected, images, child, image),
    ensures
        is_image(after, map, affected, more, child, image),
{
    lemma_image_carries(before, after, map, affected, images, more, child, image);
}

proof fn lemma_images_stay(
    before: egglog::FullState<'_, '_>,
    after: egglog::FullState<'_, '_>,
    map: Map<u32, u32>,
    affected: Set<u32>,
    images: Map<u32, u32>,
    more: Map<u32, u32>,
    children: Seq<Child>,
    inputs: Seq<u32>,
)
    requires
        persists(before, after),
        images.submap_of(more),
        are_images(before, map, affected, images, children, inputs),
    ensures
        are_images(after, map, affected, more, children, inputs),
{
    assert forall|j: int| 0 <= j < children.len() implies is_image(
        after,
        map,
        affected,
        more,
        #[trigger] children[j],
        inputs[j],
    ) by {
        lemma_image_stays(before, after, map, affected, images, more, children[j], inputs[j]);
    }
}

/// The first row, from position `k` on, that can be copied.
pub open spec fn first_ready(
    nodes: Seq<ENode>,
    copied: Set<u32>,
    named: Set<u32>,
    k: int,
) -> int
    decreases nodes.len() - k,
{
    if k < 0 || k >= nodes.len() || node_ready(copied, named, nodes[k]) {
        k
    } else {
        first_ready(nodes, copied, named, k + 1)
    }
}

/// The rows that name the e-classes, in order: of each e-class the first that
/// can be copied.
pub open spec fn naming_rows(
    graph: Map<u32, Seq<ENode>>,
    copied: Set<u32>,
    order: Seq<u32>,
) -> Seq<(u32, int)>
    decreases order.len(),
{
    if order.len() == 0 {
        Seq::empty()
    } else {
        let front = order.drop_last();
        let class = order.last();
        naming_rows(graph, copied, front).push(
            (class, first_ready(graph[class], copied, front.to_set(), 0)),
        )
    }
}

/// The first `count` rows of an e-class but one.
pub open spec fn rows_but(class: u32, count: int, but: int) -> Seq<(u32, int)>
    decreases count,
{
    if count <= 0 {
        Seq::empty()
    } else if count - 1 == but {
        rows_but(class, count - 1, but)
    } else {
        rows_but(class, count - 1, but).push((class, count - 1))
    }
}

/// The other rows of the e-classes, in order.
pub open spec fn other_rows(
    graph: Map<u32, Seq<ENode>>,
    copied: Set<u32>,
    order: Seq<u32>,
) -> Seq<(u32, int)>
    decreases order.len(),
{
    if order.len() == 0 {
        Seq::empty()
    } else {
        let front = order.drop_last();
        let class = order.last();
        other_rows(graph, copied, front) + rows_but(
            class,
            graph[class].len() as int,
            first_ready(graph[class], copied, front.to_set(), 0),
        )
    }
}

/// A copied row.
pub struct CopiedRow {
    /// The e-class of the row.
    pub class: u32,
    /// The position of the row in its e-class.
    pub row: usize,
    /// The input columns of the copy.
    pub inputs: Vec<u32>,
    /// The e-class that the copy got.
    pub eclass: u32,
}

/// The image of each named e-class: what its first copy got.
pub open spec fn images_of(order: Seq<u32>, copies: Seq<CopiedRow>) -> Map<u32, u32>
    decreases order.len(),
{
    if order.len() == 0 {
        Map::empty()
    } else {
        images_of(order.drop_last(), copies).insert(order.last(), copies[order.len() - 1].eclass)
    }
}

/// What copying one row writes: the row, its status, and for a row that does
/// not name its e-class the union with the image.
pub open spec fn copy_changes(
    graph: Map<u32, Seq<ENode>>,
    list: Seq<Constructor>,
    images: Map<u32, u32>,
    copy: CopiedRow,
    names: bool,
) -> Seq<Edit> {
    let node = graph[copy.class][copy.row as int];
    let table = list[node.ctor as int].name@;
    let added = row_changes(table, copy.inputs@, copy.eclass, node.subsumed);
    let joined = if names || copy.eclass == images[copy.class] {
        Seq::empty()
    } else {
        seq![Edit::Union(copy.eclass, images[copy.class])]
    };
    added + joined
}

/// What copying the rows writes, in order.
pub open spec fn changes(
    graph: Map<u32, Seq<ENode>>,
    list: Seq<Constructor>,
    order: Seq<u32>,
    copies: Seq<CopiedRow>,
) -> Seq<Edit>
    decreases copies.len(),
{
    if copies.len() == 0 {
        Seq::empty()
    } else {
        changes(graph, list, order, copies.drop_last()) + copy_changes(
            graph,
            list,
            images_of(order, copies),
            copies.last(),
            copies.len() <= order.len(),
        )
    }
}

/// The copies are those of the given rows, in order, with the substitution
/// carried through their columns.
pub open spec fn copies_rows(
    state: egglog::FullState<'_, '_>,
    graph: Map<u32, Seq<ENode>>,
    map: Map<u32, u32>,
    affected: Set<u32>,
    images: Map<u32, u32>,
    rows: Seq<(u32, int)>,
    copies: Seq<CopiedRow>,
) -> bool {
    &&& copies.len() == rows.len()
    &&& forall|i: int|
        0 <= i < copies.len() ==> {
            &&& (#[trigger] copies[i]).class == rows[i].0
            &&& copies[i].row == rows[i].1
            &&& are_images(
                state,
                map,
                affected,
                images,
                graph[rows[i].0][rows[i].1].children@,
                copies[i].inputs@,
            )
        }
}

proof fn lemma_ready_imaged(
    map: Map<u32, u32>,
    affected: Set<u32>,
    images: Map<u32, u32>,
    node: ENode,
)
    requires
        node_ready(copied_classes(affected, map.dom()), images.dom(), node),
        node.deps@ == leaves(node.children@),
    ensures
        all_imaged(map, affected, images, leaves(node.children@)),
{
    assert forall|i: int| 0 <= i < node.deps@.len() implies class_image(
        map,
        affected,
        images,
        #[trigger] node.deps@[i],
    ) is Some by {
        assert(resolved(copied_classes(affected, map.dom()), images.dom(), node.deps@[i]));
    }
}

pub(crate) proof fn lemma_first_ready(nodes: Seq<ENode>, copied: Set<u32>, named: Set<u32>, k: int, j: int)
    requires
        0 <= k <= j < nodes.len(),
        node_ready(copied, named, nodes[j]),
    ensures
        k <= first_ready(nodes, copied, named, k) <= j,
        node_ready(copied, named, nodes[first_ready(nodes, copied, named, k)]),
    decreases j - k,
{
    if !node_ready(copied, named, nodes[k]) {
        lemma_first_ready(nodes, copied, named, k + 1, j);
    }
}

/// The images depend on the first copies only.
proof fn lemma_images_prefix(order: Seq<u32>, copies: Seq<CopiedRow>, more: Seq<CopiedRow>)
    requires
        order.len() <= copies.len(),
        copies.is_prefix_of(more),
    ensures
        images_of(order, copies) == images_of(order, more),
    decreases order.len(),
{
    if order.len() > 0 {
        lemma_images_prefix(order.drop_last(), copies, more);
        assert(copies[order.len() - 1] == more[order.len() - 1]);
    }
}

proof fn lemma_images_dom(order: Seq<u32>, copies: Seq<CopiedRow>)
    ensures
        images_of(order, copies).dom() == order.to_set(),
    decreases order.len(),
{
    if order.len() == 0 {
        assert(images_of(order, copies).dom() =~= order.to_set());
    } else {
        let front = order.drop_last();
        lemma_images_dom(front, copies);
        assert(order =~= front.push(order.last()));
        assert forall|class: u32| order.to_set().contains(class) <==> front.to_set().insert(
            order.last(),
        ).contains(class) by {
            lemma_push_contains(front, order.last(), class);
        }
        assert(order.to_set() =~= front.to_set().insert(order.last()));
        assert(images_of(order, copies).dom() =~= order.to_set());
    }
}

/// What was written is the copy of the e-classes of `order`: first of each the
/// row that names it, then the others.
pub open spec fn is_built(
    before: egglog::FullState<'_, '_>,
    after: egglog::FullState<'_, '_>,
    graph: Map<u32, Seq<ENode>>,
    list: Seq<Constructor>,
    map: Map<u32, u32>,
    affected: Set<u32>,
    order: Seq<u32>,
    copies: Seq<CopiedRow>,
    written: Seq<Edit>,
) -> bool {
    let copied = copied_classes(affected, map.dom());
    &&& copies_rows(
        after,
        graph,
        map,
        affected,
        images_of(order, copies),
        naming_rows(graph, copied, order) + other_rows(graph, copied, order),
        copies,
    )
    &&& subsumed_have_copies(before, graph, list, copies)
    &&& written == changes(graph, list, order, copies)
}

/// The copies of subsumed rows were committed before.
pub open spec fn subsumed_have_copies(
    before: egglog::FullState<'_, '_>,
    graph: Map<u32, Seq<ENode>>,
    list: Seq<Constructor>,
    copies: Seq<CopiedRow>,
) -> bool {
    forall|i: int|
        0 <= i < copies.len() ==> {
            let node = graph[(#[trigger] copies[i]).class][copies[i].row as int];
            node.subsumed ==> class_at(
                before,
                list[node.ctor as int].name@,
                copies[i].inputs@,
            ) is Some
        }
}

/// The order names e-classes of the graph that need copies, each once and from
/// a row that needs only what comes before, and then every row can be copied.
pub open spec fn is_plan(
    graph: Map<u32, Seq<ENode>>,
    copied: Set<u32>,
    order: Seq<u32>,
) -> bool {
    &&& order.no_duplicates()
    &&& grounded(graph, copied, order)
    &&& forall|i: int| 0 <= i < order.len() ==> graph.contains_key(#[trigger] order[i])
    &&& forall|i: int, k: int|
        0 <= i < order.len() && 0 <= k < graph[order[i]].len() ==> node_ready(
            copied,
            order.to_set(),
            #[trigger] graph[order[i]][k],
        )
}

/// The images that are known beforehand are those of the named e-classes.
spec fn known_hold(
    graph: Map<u32, Seq<ENode>>,
    whole: Seq<u32>,
    named: Seq<u32>,
    known: Map<u32, u32>,
    images: Map<u32, u32>,
) -> bool {
    has_subsumed(graph, whole) ==> forall|class: u32|
        named.to_set().contains(class) && known.contains_key(class) ==> entry(images, class)
            == #[trigger] entry(known, class)
}

/// Names each e-class of the order from the first of its rows that can be
/// copied.
fn name_classes(
    state: &mut egglog::FullState<'_, '_>,
    snapshot: &Snapshot,
    list: &Vec<Constructor>,
    map: &BTreeMap<u32, u32>,
    affected: &HashSet<u32>,
    order: &Vec<u32>,
    firsts: &Vec<usize>,
    known: &HashMap<u32, u32>,
    images: &mut HashMap<u32, u32>,
) -> (copies: Vec<CopiedRow>)
    requires
        owns(*old(state)),
        snapshot.wf(),
        is_plan(snapshot.graph(), copied_classes(affected@, map@.dom()), order@),
        are_naming(snapshot.graph(), copied_classes(affected@, map@.dom()), order@, firsts@),
        all_copyable(*old(state), list@, snapshot.graph()),
        all_shaped(*old(state), list@, snapshot.graph()),
        all_stand(
            *old(state),
            snapshot.graph(),
            list@,
            map@,
            affected@,
            order@,
            known@,
        ),
        old(images)@ == Map::<u32, u32>::empty(),
    ensures
        persists(*old(state), *final(state)),
        final(images)@ == images_of(order@, copies@),
        copies_rows(
            *final(state),
            snapshot.graph(),
            map@,
            affected@,
            final(images)@,
            naming_rows(snapshot.graph(), copied_classes(affected@, map@.dom()), order@),
            copies@,
        ),
        subsumed_have_copies(*old(state), snapshot.graph(), list@, copies@),
        staged(*final(state)) == staged(*old(state)) + changes(
            snapshot.graph(),
            list@,
            order@,
            copies@,
        ),
        known_hold(snapshot.graph(), order@, order@, known@, final(images)@),
{
    let ghost base = *state;
    let ghost graph = snapshot.graph();
    let ghost copied = copied_classes(affected@, map@.dom());
    let mut copies: Vec<CopiedRow> = Vec::new();
    proof {
        assert(order@.take(0) =~= Seq::<u32>::empty());
        assert(staged(base) =~= staged(base) + changes(graph, list@, order@, copies@));
    }
    for i in 0..order.len()
        invariant
            base == *old(state),
            owns(base),
            snapshot.wf(),
            graph == snapshot.graph(),
            copied == copied_classes(affected@, map@.dom()),
            is_plan(graph, copied, order@),
            are_naming(graph, copied, order@, firsts@),
            all_copyable(base, list@, graph),
            all_shaped(base, list@, graph),
            all_stand(base, graph, list@, map@, affected@, order@, known@),
            persists(base, *state),
            images@ == images_of(order@.take(i as int), copies@),
            copies_rows(
                *state,
                graph,
                map@,
                affected@,
                images@,
                naming_rows(graph, copied, order@.take(i as int)),
                copies@,
            ),
            copies@.len() == i,
            subsumed_have_copies(base, graph, list@, copies@),
            staged(*state) == staged(base) + changes(graph, list@, order@, copies@),
            known_hold(graph, order@, order@.take(i as int), known@, images@),
    {
        let class = order[i];
        let ghost front = order@.take(i as int);
        assert(graph.contains_key(order@[i as int]));
        match snapshot.index.get(&class) {
            None => {
                assert(false);
            },
            Some(position) => {
                let nodes = &snapshot.classes[*position].nodes;
                assert(nodes@ == graph[class]);
                assert(is_naming(graph, copied, order@, i as int, firsts@[i as int]));
                let k = firsts[i];
                let ghost node = graph[class][k as int];
                let ghost table = list@[node.ctor as int].name@;
                proof {
                    assert(is_copyable(base, list@, graph[class][k as int]));
                    assert(is_shaped(base, list@, graph[class][k as int]));
                    lemma_copyable_persists(base, *state, list@, node);
                    lemma_images_dom(front, copies@);
                    lemma_ready_imaged(map@, affected@, images@, node);
                    if has_subsumed(graph, order@) {
                        lemma_ready_carries(
                            map@,
                            affected@,
                            known@,
                            images@,
                            front.to_set(),
                            node,
                        );
                        if node.subsumed {
                            assert(graph[order@[i as int]][k as int].subsumed);
                            let found = choose|found: u32| #[trigger]
                                stands(base, list@, map@, affected@, known@, node, Some(found));
                            lemma_copy_stands(
                                base,
                                *state,
                                list@,
                                map@,
                                affected@,
                                known@,
                                images@,
                                node,
                                found,
                            );
                        }
                    } else {
                        assert(!graph[order@[i as int]][k as int].subsumed);
                    }
                }
                let ghost before = copies@;
                let ghost had = images@;
                let ghost earlier = *state;
                let (inputs, eclass) = copy_row(state, list, map, affected, images, &nodes[k]);
                images.insert(class, eclass);
                copies.push(CopiedRow { class, row: k, inputs, eclass });
                proof {
                    let more = copies@;
                    let next = order@.take(i + 1);
                    assert(next.drop_last() =~= front);
                    assert(next.last() == class);
                    assert(next =~= front.push(class));
                    lemma_images_prefix(front, before, more);
                    assert(more[next.len() - 1].eclass == eclass);
                    assert(images@ =~= images_of(next, more));
                    assert(!front.contains(class)) by {
                        if front.contains(class) {
                            let j = front.index_of(class);
                            assert(order@[j] == order@[i as int]);
                        }
                    }
                    assert(had.dom() == front.to_set());
                    assert(had.submap_of(images@));
                    let rows = naming_rows(graph, copied, next);
                    let earlier_rows = naming_rows(graph, copied, front);
                    assert(rows == earlier_rows.push((class, k as int)));
                    assert forall|j: int| 0 <= j < more.len() implies {
                        &&& (#[trigger] more[j]).class == rows[j].0
                        &&& more[j].row == rows[j].1
                        &&& are_images(
                            *state,
                            map@,
                            affected@,
                            images@,
                            graph[rows[j].0][rows[j].1].children@,
                            more[j].inputs@,
                        )
                    } by {
                        let children = graph[rows[j].0][rows[j].1].children@;
                        if j < i {
                            assert(more[j] == before[j]);
                            assert(rows[j] == earlier_rows[j]);
                            lemma_images_stay(
                                earlier,
                                *state,
                                map@,
                                affected@,
                                had,
                                images@,
                                children,
                                more[j].inputs@,
                            );
                        } else {
                            assert(rows[j] == (class, k as int));
                            lemma_images_stay(
                                *state,
                                *state,
                                map@,
                                affected@,
                                had,
                                images@,
                                children,
                                more[j].inputs@,
                            );
                        }
                    }
                    assert forall|j: int| 0 <= j < more.len() implies {
                        let own = graph[(#[trigger] more[j]).class][more[j].row as int];
                        own.subsumed ==> class_at(
                            base,
                            list@[own.ctor as int].name@,
                            more[j].inputs@,
                        ) is Some
                    } by {
                        if j < i {
                            assert(more[j] == before[j]);
                        }
                    }
                    let planned = changes(graph, list@, order@, before);
                    assert(more.drop_last() =~= before);
                    let own = copy_changes(graph, list@, images_of(order@, more), more.last(), true);
                    assert(own =~= row_changes(table, more[i as int].inputs@, eclass, node.subsumed));
                    assert(changes(graph, list@, order@, more) == planned + own);
                    assert(staged(*state) =~= staged(base) + (planned + own));
                    if has_subsumed(graph, order@) {
                        assert forall|other: u32|
                            next.to_set().contains(other) && known@.contains_key(
                                other,
                            ) implies entry(images@, other) == #[trigger] entry(known@, other) by {
                            lemma_push_contains(front, class, other);
                            if other == class {
                                lemma_copy_stands(
                                    base,
                                    *state,
                                    list@,
                                    map@,
                                    affected@,
                                    known@,
                                    had,
                                    node,
                                    known@[class],
                                );
                                assert(are_images(
                                    *state,
                                    map@,
                                    affected@,
                                    had,
                                    node.children@,
                                    more[i as int].inputs@,
                                ));
                            } else {
                                assert(front.to_set().contains(other));
                                assert(entry(had, other) == entry(known@, other));
                            }
                        }
                    }
                }
            },
        }
    }
    assert(order@.take(order@.len() as int) =~= order@);
    copies
}

/// Copies the affected e-classes in the given order: first of each the row that
/// names it, then the others.
pub fn build(
    state: &mut egglog::FullState<'_, '_>,
    snapshot: &Snapshot,
    list: &Vec<Constructor>,
    map: &BTreeMap<u32, u32>,
    affected: &HashSet<u32>,
    order: &Vec<u32>,
    firsts: &Vec<usize>,
    known: &HashMap<u32, u32>,
) -> (copies: Vec<CopiedRow>)
    requires
        owns(*old(state)),
        snapshot.wf(),
        is_plan(snapshot.graph(), copied_classes(affected@, map@.dom()), order@),
        are_naming(snapshot.graph(), copied_classes(affected@, map@.dom()), order@, firsts@),
        all_copyable(*old(state), list@, snapshot.graph()),
        all_shaped(*old(state), list@, snapshot.graph()),
        all_stand(
            *old(state),
            snapshot.graph(),
            list@,
            map@,
            affected@,
            order@,
            known@,
        ),
    ensures
        persists(*old(state), *final(state)),
        staged(*old(state)).is_prefix_of(staged(*final(state))),
        is_built(
            *old(state),
            *final(state),
            snapshot.graph(),
            list@,
            map@,
            affected@,
            order@,
            copies@,
            staged(*final(state)).skip(staged(*old(state)).len() as int),
        ),
{
    let ghost base = *state;
    let ghost graph = snapshot.graph();
    let ghost copied = copied_classes(affected@, map@.dom());
    let mut images: HashMap<u32, u32> = HashMap::new();
    assert(images@ =~= Map::<u32, u32>::empty());
    let mut copies = name_classes(
        state,
        snapshot,
        list,
        map,
        affected,
        order,
        firsts,
        known,
        &mut images,
    );
    let ghost naming = naming_rows(graph, copied, order@);
    proof {
        lemma_images_dom(order@, copies@);
        lemma_naming_rows_len(graph, copied, order@);
        assert(order@.take(0) =~= Seq::<u32>::empty());
        assert(naming + other_rows(graph, copied, order@.take(0)) =~= naming);
    }
    for i in 0..order.len()
        invariant
            base == *old(state),
            owns(base),
            snapshot.wf(),
            graph == snapshot.graph(),
            copied == copied_classes(affected@, map@.dom()),
            is_plan(graph, copied, order@),
            are_naming(graph, copied, order@, firsts@),
            naming == naming_rows(graph, copied, order@),
            naming.len() == order@.len(),
            all_copyable(base, list@, graph),
            all_shaped(base, list@, graph),
            all_stand(base, graph, list@, map@, affected@, order@, known@),
            persists(base, *state),
            images@.dom() == order@.to_set(),
            images@ == images_of(order@, copies@),
            known_hold(graph, order@, order@, known@, images@),
            copies_rows(
                *state,
                graph,
                map@,
                affected@,
                images@,
                naming + other_rows(graph, copied, order@.take(i as int)),
                copies@,
            ),
            copies@.len() >= order@.len(),
            subsumed_have_copies(base, graph, list@, copies@),
            staged(*state) == staged(base) + changes(graph, list@, order@, copies@),
    {
        let class = order[i];
        let first = firsts[i];
        let ghost before = naming + other_rows(graph, copied, order@.take(i as int));
        assert(graph.contains_key(order@[i as int]));
        assert(is_naming(graph, copied, order@, i as int, firsts@[i as int]));
        match snapshot.index.get(&class) {
            None => {
                assert(false);
            },
            Some(position) => {
                let nodes = &snapshot.classes[*position].nodes;
                assert(nodes@ == graph[class]);
                assert(before + rows_but(class, 0, first as int) =~= before);
                assert(order@.contains(class));
                assert(images@.contains_key(class));
                for k in 0..nodes.len()
                    invariant
                        base == *old(state),
                        owns(base),
                        graph == snapshot.graph(),
                        i < order@.len(),
                        class == order@[i as int],
                        nodes@ == graph[class],
                        graph.contains_key(class),
                        images@.contains_key(class),
                        copied == copied_classes(affected@, map@.dom()),
                        is_plan(graph, copied, order@),
                        all_copyable(base, list@, graph),
                        all_shaped(base, list@, graph),
                        all_stand(base, graph, list@, map@, affected@, order@, known@),
                        persists(base, *state),
                        images@.dom() == order@.to_set(),
                        images@ == images_of(order@, copies@),
                        known_hold(graph, order@, order@, known@, images@),
                        before.len() >= order@.len(),
                        copies_rows(
                            *state,
                            graph,
                            map@,
                            affected@,
                            images@,
                            before + rows_but(class, k as int, first as int),
                            copies@,
                        ),
                        copies@.len() >= order@.len(),
                        subsumed_have_copies(base, graph, list@, copies@),
                        staged(*state) == staged(base) + changes(graph, list@, order@, copies@),
                {
                    if k != first {
                        let ghost node = graph[class][k as int];
                        let ghost table = list@[node.ctor as int].name@;
                        proof {
                            assert(is_copyable(base, list@, graph[class][k as int]));
                            assert(is_shaped(base, list@, graph[class][k as int]));
                            lemma_copyable_persists(base, *state, list@, node);
                            assert(node_ready(copied, order@.to_set(), graph[order@[i as int]][k as int]));
                            lemma_ready_imaged(map@, affected@, images@, node);
                            if node.subsumed {
                                assert(graph[order@[i as int]][k as int].subsumed);
                                let found = choose|found: u32| #[trigger]
                                    stands(base, list@, map@, affected@, known@, node, Some(found));
                                lemma_ready_carries(
                                    map@,
                                    affected@,
                                    known@,
                                    images@,
                                    order@.to_set(),
                                    node,
                                );
                                lemma_copy_stands(
                                    base,
                                    *state,
                                    list@,
                                    map@,
                                    affected@,
                                    known@,
                                    images@,
                                    node,
                                    found,
                                );
                            }
                        }
                        let ghost had = copies@;
                        let ghost current = *state;
                        let (inputs, eclass) = copy_row(
                            state,
                            list,
                            map,
                            affected,
                            &images,
                            &nodes[k],
                        );
                        let ghost planned = changes(graph, list@, order@, had);
                        let ghost own = row_changes(table, inputs@, eclass, node.subsumed);
                        let image = match images.get(&class) {
                            Some(image) => *image,
                            None => {
                                assert(false);
                                eclass
                            },
                        };
                        let ghost added = *state;
                        if eclass != image {
                            match union_classes(state, eclass, image) {
                                Ok(_) => {},
                                Err(_) => vstd::pervasive::unreached(),
                            }
                        }
                        copies.push(CopiedRow { class, row: k, inputs, eclass });
                        proof {
                            let more = copies@;
                            assert(more.drop_last() =~= had);
                            lemma_images_prefix(order@, had, more);
                            let mine = copy_changes(
                                graph,
                                list@,
                                images_of(order@, more),
                                more.last(),
                                false,
                            );
                            assert(changes(graph, list@, order@, more) == planned + mine);
                            if eclass != image {
                                assert(mine =~= own.push(Edit::Union(eclass, image)));
                            } else {
                                assert(mine =~= own);
                            }
                            assert(staged(*state) =~= staged(base) + (planned + mine));
                            let rows = before + rows_but(class, k + 1, first as int);
                            let earlier = before + rows_but(class, k as int, first as int);
                            assert(rows =~= earlier.push((class, k as int)));
                            assert forall|j: int| 0 <= j < more.len() implies {
                                &&& (#[trigger] more[j]).class == rows[j].0
                                &&& more[j].row == rows[j].1
                                &&& are_images(
                                    *state,
                                    map@,
                                    affected@,
                                    images@,
                                    graph[rows[j].0][rows[j].1].children@,
                                    more[j].inputs@,
                                )
                            } by {
                                let children = graph[rows[j].0][rows[j].1].children@;
                                if j < had.len() {
                                    assert(more[j] == had[j]);
                                    assert(rows[j] == earlier[j]);
                                    lemma_images_stay(
                                        current,
                                        *state,
                                        map@,
                                        affected@,
                                        images@,
                                        images@,
                                        children,
                                        more[j].inputs@,
                                    );
                                } else {
                                    lemma_images_stay(
                                        added,
                                        *state,
                                        map@,
                                        affected@,
                                        images@,
                                        images@,
                                        children,
                                        more[j].inputs@,
                                    );
                                }
                            }
                            assert forall|j: int| 0 <= j < more.len() implies {
                                let its = graph[(#[trigger] more[j]).class][more[j].row as int];
                                its.subsumed ==> class_at(
                                    base,
                                    list@[its.ctor as int].name@,
                                    more[j].inputs@,
                                ) is Some
                            } by {
                                if j < had.len() {
                                    assert(more[j] == had[j]);
                                }
                            }
                        }
                    }
                }
                proof {
                    let next = order@.take(i + 1);
                    assert(next.drop_last() =~= order@.take(i as int));
                    assert(next.last() == class);
                    assert(naming + other_rows(graph, copied, next) =~= before + rows_but(
                        class,
                        nodes@.len() as int,
                        first as int,
                    ));
                }
            },
        }
    }
    proof {
        assert(order@.take(order@.len() as int) =~= order@);
        assert(staged(*state).skip(staged(base).len() as int) =~= changes(
            graph,
            list@,
            order@,
            copies@,
        ));
    }
    copies
}

/// One row names each e-class.
pub proof fn lemma_naming_rows_len(graph: Map<u32, Seq<ENode>>, copied: Set<u32>, order: Seq<u32>)
    ensures
        naming_rows(graph, copied, order).len() == order.len(),
    decreases order.len(),
{
    if order.len() > 0 {
        lemma_naming_rows_len(graph, copied, order.drop_last());
    }
}

} // verus!
