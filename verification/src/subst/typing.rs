//! The sorts at which the substitution primitive can be used.
//!
//! `(unstable-subst root map) : (R, Map<K, K>) -> R` for any eq-sort `R`. A
//! substitution reaches through every sort in the term structure, so that `R`
//! is free. `K` is an eq-sort that maps to itself: a value of another sort in
//! the place of a `K` would give an ill-typed row.

use vstd::prelude::*;
use crate::subst::state::{holds_eclasses, is_eq_sort, name_of_sort, sort_name};
use crate::text::{before, is_before, lemma_before_total, lemma_before_transitive, same};

verus! {

/// The declared sorts by name.
pub uninterp spec fn declared_sorts(info: egglog::TypeInfo) -> Map<Seq<char>, egglog::ResolvedVar>;

/// Values of the sort are interned as maps.
pub uninterp spec fn is_map_sort(sort: egglog::ResolvedVar) -> bool;

/// The sorts of what a container of the sort holds.
pub uninterp spec fn inner_sorts_of(sort: egglog::ResolvedVar) -> Seq<egglog::ResolvedVar>;

/// The declared sorts, by `TypeInfo::get_arcsorts_by` with a condition that
/// all meet: each once. The order is left open, since it is that of a hash
/// map.
#[verifier::external_body]
fn all_sorts(info: &egglog::TypeInfo) -> (sorts: Vec<egglog::ResolvedVar>)
    ensures
        forall|i: int|
            0 <= i < sorts@.len() ==> {
                &&& declared_sorts(*info).contains_key(sort_name(#[trigger] sorts@[i]))
                &&& declared_sorts(*info)[sort_name(sorts@[i])] == sorts@[i]
            },
        forall|name: Seq<char>| #[trigger]
            declared_sorts(*info).contains_key(name) ==> exists|i: int|
                0 <= i < sorts@.len() && sort_name(#[trigger] sorts@[i]) == name,
{
    let sorts = info.get_arcsorts_by(|_| true);
    let carry = |sort: egglog::ArcSort| egglog::ResolvedVar {
        name: String::new(),
        sort,
        is_global_ref: false,
    };
    sorts.into_iter().map(carry).collect()
}

/// Whether values of the sort are interned as maps, by `Sort::value_type`.
#[verifier::external_body]
fn holds_maps(sort: &egglog::ResolvedVar) -> (yes: bool)
    ensures
        yes == is_map_sort(*sort),
{
    sort.sort.value_type() == Some(std::any::TypeId::of::<egglog::sort::MapContainer>())
}

/// The sorts of what a map of the sort holds, by `Sort::inner_sorts`.
#[verifier::external_body]
fn inner_sorts(sort: &egglog::ResolvedVar) -> (inner: Vec<egglog::ResolvedVar>)
    requires
        is_map_sort(*sort),
    ensures
        inner@ == inner_sorts_of(*sort),
{
    let carry = |sort: egglog::ArcSort| egglog::ResolvedVar {
        name: String::new(),
        sort,
        is_global_ref: false,
    };
    sort.sort.inner_sorts().into_iter().map(carry).collect()
}

/// The sort is that of a map from an eq-sort to itself.
pub open spec fn admits_map(sort: egglog::ResolvedVar) -> bool {
    &&& is_map_sort(sort)
    &&& inner_sorts_of(sort).len() == 2
    &&& is_eq_sort(inner_sorts_of(sort)[0])
    &&& sort_name(inner_sorts_of(sort)[0]) == sort_name(inner_sorts_of(sort)[1])
}

/// Whether the sort is that of a map from an eq-sort to itself.
pub fn can_be_map(sort: &egglog::ResolvedVar) -> (yes: bool)
    ensures
        yes == admits_map(*sort),
{
    if !holds_maps(sort) {
        return false;
    }
    let inner = inner_sorts(sort);
    if inner.len() != 2 || !holds_eclasses(&inner[0]) {
        return false;
    }
    same(name_of_sort(&inner[0]).as_str(), name_of_sort(&inner[1]).as_str())
}

/// The sorts stand in the order of their names, each name once.
pub open spec fn by_name(sorts: Seq<egglog::ResolvedVar>) -> bool {
    forall|i: int, j: int|
        0 <= i < j < sorts.len() ==> before(
            sort_name(#[trigger] sorts[i]),
            sort_name(#[trigger] sorts[j]),
        )
}

/// The list holds the declared sorts that are admitted, and no others, in the
/// order of their names.
pub open spec fn lists_sorts(
    info: egglog::TypeInfo,
    sorts: Seq<egglog::ResolvedVar>,
    admitted: spec_fn(egglog::ResolvedVar) -> bool,
) -> bool {
    &&& by_name(sorts)
    &&& forall|i: int|
        0 <= i < sorts.len() ==> {
            &&& admitted(#[trigger] sorts[i])
            &&& declared_sorts(info).contains_key(sort_name(sorts[i]))
            &&& declared_sorts(info)[sort_name(sorts[i])] == sorts[i]
        }
    &&& forall|name: Seq<char>|
        #[trigger] declared_sorts(info).contains_key(name) && admitted(declared_sorts(info)[name])
            ==> sorts.contains(declared_sorts(info)[name])
}

/// Puts a sort where it belongs by name, unless the list has one of its name.
fn insert_by_name(sorts: &mut Vec<egglog::ResolvedVar>, sort: egglog::ResolvedVar)
    requires
        by_name(old(sorts)@),
        forall|i: int|
            0 <= i < old(sorts)@.len() && sort_name(#[trigger] old(sorts)@[i]) == sort_name(sort)
                ==> old(sorts)@[i] == sort,
    ensures
        by_name(final(sorts)@),
        forall|other: egglog::ResolvedVar| #[trigger]
            final(sorts)@.contains(other) <==> old(sorts)@.contains(other) || other == sort,
{
    let ghost was = sorts@;
    let name = name_of_sort(&sort);
    let mut place: usize = 0;
    while place < sorts.len() && is_before(name_of_sort(&sorts[place]).as_str(), name.as_str())
        invariant
            sorts@ == was,
            name@ == sort_name(sort),
            place <= was.len(),
            forall|i: int|
                0 <= i < place ==> before(sort_name(#[trigger] was[i]), sort_name(sort)),
        decreases was.len() - place,
    {
        place = place + 1;
    }
    if place < sorts.len() && same(name_of_sort(&sorts[place]).as_str(), name.as_str()) {
        assert(was[place as int] == sort);
        return ;
    }
    sorts.insert(place, sort);
    proof {
        let now = sorts@;
        let p = place as int;
        assert(now[p] == sort);
        assert forall|i: int| p <= i < was.len() implies before(
            sort_name(sort),
            sort_name(#[trigger] was[i]),
        ) by {
            lemma_before_total(sort_name(was[p]), sort_name(sort));
            if i > p {
                lemma_before_transitive(sort_name(sort), sort_name(was[p]), sort_name(was[i]));
            }
        }
        assert forall|i: int, j: int| 0 <= i < j < now.len() implies before(
            sort_name(#[trigger] now[i]),
            sort_name(#[trigger] now[j]),
        ) by {
            let a = if i < p { i } else { i - 1 };
            let b = if j < p { j } else { j - 1 };
            if i != p {
                assert(now[i] == was[a]);
            }
            if j != p {
                assert(now[j] == was[b]);
            }
        }
        assert forall|other: egglog::ResolvedVar| #[trigger] now.contains(other) <==> was.contains(
            other,
        ) || other == sort by {
            if was.contains(other) {
                let i = was.index_of(other);
                let k = if i < p { i } else { i + 1 };
                assert(now[k] == was[i]);
            }
            if now.contains(other) {
                let i = now.index_of(other);
                if i != p {
                    let k = if i < p { i } else { i - 1 };
                    assert(now[i] == was[k]);
                }
            }
        }
    }
}

/// How the primitive can be used.
pub enum Usage {
    /// It takes a root and a map and gives a result, so that there are three
    /// terms, and there were not.
    WrongArity,
    /// The map has one of the sorts `maps`; the root and the result have the
    /// same sort, one of `roots`.
    Sorts {
        /// The sorts for the map, by name.
        maps: Vec<egglog::ResolvedVar>,
        /// The sorts for the root and the result, by name.
        roots: Vec<egglog::ResolvedVar>,
    },
}

/// Finds the sorts at which the primitive can be used on a number of terms,
/// the result included.
pub fn usage(terms: usize, info: &egglog::TypeInfo) -> (usage: Usage)
    ensures
        match usage {
            Usage::WrongArity => terms != 3,
            Usage::Sorts { maps, roots } => {
                &&& terms == 3
                &&& lists_sorts(*info, maps@, |sort: egglog::ResolvedVar| admits_map(sort))
                &&& lists_sorts(*info, roots@, |sort: egglog::ResolvedVar| is_eq_sort(sort))
            },
        },
{
    if terms != 3 {
        return Usage::WrongArity;
    }
    let sorts = all_sorts(info);
    let ghost map_rule = |sort: egglog::ResolvedVar| admits_map(sort);
    let ghost root_rule = |sort: egglog::ResolvedVar| is_eq_sort(sort);
    let mut maps: Vec<egglog::ResolvedVar> = Vec::new();
    let mut roots: Vec<egglog::ResolvedVar> = Vec::new();
    for i in 0..sorts.len()
        invariant
            forall|j: int|
                0 <= j < sorts@.len() ==> {
                    &&& declared_sorts(*info).contains_key(sort_name(#[trigger] sorts@[j]))
                    &&& declared_sorts(*info)[sort_name(sorts@[j])] == sorts@[j]
                },
            by_name(maps@),
            by_name(roots@),
            forall|sort: egglog::ResolvedVar| #[trigger]
                maps@.contains(sort) <==> sorts@.take(i as int).contains(sort) && admits_map(sort),
            forall|sort: egglog::ResolvedVar| #[trigger]
                roots@.contains(sort) <==> sorts@.take(i as int).contains(sort) && is_eq_sort(sort),
    {
        let ghost front = sorts@.take(i as int);
        let ghost sort = sorts@[i as int];
        proof {
            assert(sorts@.take(i + 1) =~= front.push(sort));
            assert forall|other: egglog::ResolvedVar| front.push(sort).contains(other)
                <==> front.contains(other) || other == sort by {
                assert(front.push(sort)[i as int] == sort);
                if front.contains(other) {
                    let k = front.index_of(other);
                    assert(front.push(sort)[k] == other);
                }
            }
            assert forall|list: Seq<egglog::ResolvedVar>, k: int|
                0 <= k < list.len() && (forall|other: egglog::ResolvedVar|
                    list.contains(other) ==> front.contains(other)) && sort_name(
                    #[trigger] list[k],
                ) == sort_name(sort) implies list[k] == sort by {
                assert(list.contains(list[k]));
                let q = front.index_of(list[k]);
                assert(sorts@[q] == list[k]);
            }
        }
        if can_be_map(&sorts[i]) {
            insert_by_name(&mut maps, sorts[i].clone());
        }
        if holds_eclasses(&sorts[i]) {
            insert_by_name(&mut roots, sorts[i].clone());
        }
    }
    proof {
        assert(sorts@.take(sorts@.len() as int) =~= sorts@);
        lemma_lists_sorts(*info, sorts@, maps@, map_rule);
        lemma_lists_sorts(*info, sorts@, roots@, root_rule);
    }
    Usage::Sorts { maps, roots }
}

proof fn lemma_lists_sorts(
    info: egglog::TypeInfo,
    sorts: Seq<egglog::ResolvedVar>,
    list: Seq<egglog::ResolvedVar>,
    admitted: spec_fn(egglog::ResolvedVar) -> bool,
)
    requires
        by_name(list),
        forall|i: int|
            0 <= i < sorts.len() ==> {
                &&& declared_sorts(info).contains_key(sort_name(#[trigger] sorts[i]))
                &&& declared_sorts(info)[sort_name(sorts[i])] == sorts[i]
            },
        forall|name: Seq<char>| #[trigger]
            declared_sorts(info).contains_key(name) ==> exists|i: int|
                0 <= i < sorts.len() && sort_name(#[trigger] sorts[i]) == name,
        forall|sort: egglog::ResolvedVar| #[trigger]
            list.contains(sort) <==> sorts.contains(sort) && admitted(sort),
    ensures
        lists_sorts(info, list, admitted),
{
    assert forall|i: int| 0 <= i < list.len() implies {
        &&& admitted(#[trigger] list[i])
        &&& declared_sorts(info).contains_key(sort_name(list[i]))
        &&& declared_sorts(info)[sort_name(list[i])] == list[i]
    } by {
        assert(list.contains(list[i]));
        let k = sorts.index_of(list[i]);
        assert(sorts[k] == list[i]);
    }
    assert forall|name: Seq<char>|
        #[trigger] declared_sorts(info).contains_key(name) && admitted(
            declared_sorts(info)[name],
        ) implies list.contains(declared_sorts(info)[name]) by {
        let i = choose|i: int| 0 <= i < sorts.len() && sort_name(#[trigger] sorts[i]) == name;
        assert(sorts.contains(sorts[i]));
    }
}

/// The sorts at which the primitive can be used: for the map just the declared map sorts whose
/// keys are of an eq-sort and whose values are of the same sort, so that no value of another
/// sort can come in the place of a key, and for the root and the result just the declared
/// eq-sorts. Each stands in its list once, in the order of the names.
pub proof fn lemma_maps_keep_the_sort(
    info: egglog::TypeInfo,
    maps: Seq<egglog::ResolvedVar>,
    roots: Seq<egglog::ResolvedVar>,
    name: Seq<char>,
)
    requires
        lists_sorts(info, maps, |sort: egglog::ResolvedVar| admits_map(sort)),
        lists_sorts(info, roots, |sort: egglog::ResolvedVar| is_eq_sort(sort)),
        declared_sorts(info).contains_key(name),
    ensures
        ({
            let sort = declared_sorts(info)[name];
            let inner = inner_sorts_of(sort);
            maps.contains(sort) <==> {
                &&& is_map_sort(sort)
                &&& inner.len() == 2
                &&& is_eq_sort(inner[0])
                &&& sort_name(inner[1]) == sort_name(inner[0])
            }
        }),
        roots.contains(declared_sorts(info)[name]) <==> is_eq_sort(declared_sorts(info)[name]),
        forall|i: int, j: int|
            0 <= i < j < maps.len() ==> before(
                sort_name(#[trigger] maps[i]),
                sort_name(#[trigger] maps[j]),
            ),
        forall|i: int, j: int|
            0 <= i < j < roots.len() ==> before(
                sort_name(#[trigger] roots[i]),
                sort_name(#[trigger] roots[j]),
            ),
        forall|i: int|
            0 <= i < maps.len() ==> declared_sorts(info).contains_value(#[trigger] maps[i]),
        forall|i: int|
            0 <= i < roots.len() ==> declared_sorts(info).contains_value(#[trigger] roots[i]),
{
    let sort = declared_sorts(info)[name];
    if maps.contains(sort) {
        assert(admits_map(maps[maps.index_of(sort)]));
    }
    if roots.contains(sort) {
        assert(is_eq_sort(roots[roots.index_of(sort)]));
    }
    assert forall|i: int| 0 <= i < maps.len() implies declared_sorts(info).contains_value(
        #[trigger] maps[i],
    ) by {
        assert(declared_sorts(info).contains_key(sort_name(maps[i])));
    }
    assert forall|i: int| 0 <= i < roots.len() implies declared_sorts(info).contains_value(
        #[trigger] roots[i],
    ) by {
        assert(declared_sorts(info).contains_key(sort_name(roots[i])));
    }
}

} // verus!
