//! What declarations declare, word by word.

use vstd::prelude::*;
use crate::named_args::declare::{
    are_variants, constructor_declaration, constructor_options, datatypes_run, function_options,
    is_datatypes, is_declaration, is_entry, is_function_declaration, no_function_options,
    relation_declaration, signature_of, spellings, variants_from, ConstructorOptions, Declaration,
    FunctionOptions, Trouble,
};
use crate::named_args::fields::{
    has_named_fields, named_field, named_sorts, no_fields, positional_sorts, schema_list,
    variant_fields, variant_of, VariantFields,
};
use crate::named_args::parser::Event;
use crate::named_args::sexp::{
    atom, call_of, is_key, is_variant, items_of, next_key, option_groups, sexp_span, starts_colon,
    uint, VariantModel,
};
use crate::text::texts;

verus! {

/// The s-expression is this word.
pub open spec fn is_word(sexp: egglog::ast::Sexp, word: Seq<char>) -> bool {
    sexp matches egglog::ast::Sexp::Atom(text, _) && text@ == word
}

/// The s-expression is a word that does not begin with a colon.
pub open spec fn is_sort(sexp: egglog::ast::Sexp, word: Seq<char>) -> bool {
    is_word(sexp, word) && !(word.len() > 0 && word[0] == ':')
}

/// The list names all of its fields, each with its sort behind its name, or none of them.
pub open spec fn has_fields(
    input: egglog::ast::Sexp,
    names: Option<Seq<Seq<char>>>,
    sorts: Seq<Seq<char>>,
) -> bool {
    input matches egglog::ast::Sexp::List(items, _) && match names {
        None => {
            &&& items@.len() == sorts.len()
            &&& forall|j: int| 0 <= j < sorts.len() ==> is_sort(items@[j], #[trigger] sorts[j])
        },
        Some(list) => {
            &&& list.len() > 0
            &&& list.len() == sorts.len()
            &&& items@.len() == 2 * list.len()
            &&& list.no_duplicates()
            &&& forall|j: int|
                0 <= j < list.len() ==> is_word(items@[2 * j], seq![':'] + #[trigger] list[j])
            &&& forall|j: int|
                0 <= j < sorts.len() ==> is_sort(items@[2 * j + 1], #[trigger] sorts[j])
        },
    }
}

proof fn lemma_colon(name: Seq<char>)
    ensures
        starts_colon(seq![':'] + name),
        (seq![':'] + name).skip(1) == name,
{
    let word = seq![':'] + name;
    assert(word[0] == ':');
    assert(word.skip(1) =~= name);
}

proof fn lemma_uncolon(key: Seq<char>)
    requires
        starts_colon(key),
    ensures
        key == seq![':'] + key.skip(1),
{
    assert(key =~= seq![':'] + key.skip(1));
}

proof fn lemma_positional_list(items: Seq<egglog::ast::Sexp>, i: int, before: Seq<Seq<char>>)
    requires
        0 <= i <= items.len(),
        before.len() == i,
        forall|j: int| 0 <= j < i ==> is_sort(items[j], #[trigger] before[j]),
    ensures
        match positional_sorts(items, i, before) {
            Ok(sorts) => {
                &&& sorts.len() == items.len()
                &&& forall|j: int| 0 <= j < sorts.len() ==> is_sort(items[j], #[trigger] sorts[j])
            },
            Err(_) => forall|sorts: Seq<Seq<char>>|
                sorts.len() == items.len() ==> exists|j: int|
                    0 <= j < sorts.len() && !is_sort(items[j], #[trigger] sorts[j]),
        },
    decreases items.len() - i,
{
    if i < items.len() {
        match atom(items[i]) {
            Some(sort) if !starts_colon(sort) => {
                let more = before.push(sort);
                assert forall|j: int| 0 <= j < i + 1 implies is_sort(
                    items[j],
                    #[trigger] more[j],
                ) by {
                    if j < i {
                        assert(more[j] == before[j]);
                    }
                }
                lemma_positional_list(items, i + 1, more);
            },
            _ => {
                assert forall|sorts: Seq<Seq<char>>| sorts.len() == items.len() implies exists|
                    j: int,
                | 0 <= j < sorts.len() && !is_sort(items[j], #[trigger] sorts[j]) by {
                    assert(!is_sort(items[i], sorts[i]));
                }
            },
        }
    }
}

/// The first fields of a list.
spec fn are_fields(
    items: Seq<egglog::ast::Sexp>,
    names: Seq<Seq<char>>,
    sorts: Seq<Seq<char>>,
) -> bool {
    &&& names.len() == sorts.len()
    &&& 2 * names.len() <= items.len()
    &&& names.no_duplicates()
    &&& forall|j: int| 0 <= j < names.len() ==> is_word(items[2 * j], seq![':'] + #[trigger] names[j])
    &&& forall|j: int| 0 <= j < sorts.len() ==> is_sort(items[2 * j + 1], #[trigger] sorts[j])
}

proof fn lemma_named_list(
    items: Seq<egglog::ast::Sexp>,
    i: int,
    names: Seq<Seq<char>>,
    sorts: Seq<Seq<char>>,
)
    requires
        i == 2 * names.len(),
        are_fields(items, names, sorts),
    ensures
        match named_sorts(items, i, names, sorts) {
            Ok((all, all_sorts)) => are_fields(items, all, all_sorts) && 2 * all.len()
                == items.len(),
            Err(_) => true,
        },
    decreases items.len() - i,
{
    if i < items.len() {
        match atom(items[i]) {
            Some(key) if starts_colon(key) => match named_field(items, i, names) {
                Ok((name, sort)) => {
                    lemma_uncolon(key);
                    let more = names.push(name);
                    let more_sorts = sorts.push(sort);
                    assert(more.no_duplicates());
                    assert forall|j: int| 0 <= j < more.len() implies is_word(
                        items[2 * j],
                        seq![':'] + #[trigger] more[j],
                    ) by {
                        if j < names.len() {
                            assert(more[j] == names[j]);
                        }
                    }
                    assert forall|j: int| 0 <= j < more_sorts.len() implies is_sort(
                        items[2 * j + 1],
                        #[trigger] more_sorts[j],
                    ) by {
                        if j < sorts.len() {
                            assert(more_sorts[j] == sorts[j]);
                        }
                    }
                    lemma_named_list(items, i + 2, more, more_sorts);
                },
                Err(_) => {},
            },
            _ => {},
        }
    }
}

proof fn lemma_named_list_is_read(
    items: Seq<egglog::ast::Sexp>,
    i: int,
    names: Seq<Seq<char>>,
    sorts: Seq<Seq<char>>,
)
    requires
        0 <= i <= names.len(),
        are_fields(items, names, sorts),
        2 * names.len() == items.len(),
    ensures
        named_sorts(items, 2 * i, names.take(i), sorts.take(i)) == Ok::<
            (Seq<Seq<char>>, Seq<Seq<char>>),
            crate::named_args::sexp::Fault,
        >((names, sorts)),
    decreases names.len() - i,
{
    if i < names.len() {
        lemma_colon(names[i]);
        assert(is_word(items[2 * i], seq![':'] + names[i]));
        assert(is_sort(items[2 * i + 1], sorts[i]));
        assert(!names.take(i).contains(names[i])) by {
            if names.take(i).contains(names[i]) {
                let k = names.take(i).index_of(names[i]);
                assert(names[k] == names[i]);
            }
        }
        assert(names.take(i).push(names[i]) =~= names.take(i + 1));
        assert(sorts.take(i).push(sorts[i]) =~= sorts.take(i + 1));
        lemma_named_list_is_read(items, i + 1, names, sorts);
    } else {
        assert(names.take(i) =~= names);
        assert(sorts.take(i) =~= sorts);
    }
}

/// A list of fields is read if and only if it names all of them, with different names and
/// each before its sort, or none; and what is read are those names and sorts, in their
/// order.
pub proof fn lemma_fields_are_read(
    input: egglog::ast::Sexp,
    names: Option<Seq<Seq<char>>>,
    sorts: Seq<Seq<char>>,
)
    ensures
        has_fields(input, names, sorts) <==> schema_list(input) == Ok::<
            (Option<Seq<Seq<char>>>, Seq<Seq<char>>),
            crate::named_args::sexp::Fault,
        >((names, sorts)),
{
    if let Some(items) = items_of(input) {
        let none = Seq::<Seq<char>>::empty();
        lemma_named_list(items, 0, none, none);
        lemma_positional_list(items, 0, none);
        if has_fields(input, names, sorts) {
            match names {
                Some(list) => {
                    lemma_colon(list[0]);
                    assert(is_word(items[2 * 0int], seq![':'] + list[0]));
                    assert(is_key(items[0]));
                    lemma_named_list_is_read(items, 0, list, sorts);
                    assert(list.take(0) =~= none);
                    assert(sorts.take(0) =~= none);
                },
                None => {
                    if items.len() > 0 {
                        assert(is_sort(items[0], sorts[0]));
                    }
                    match positional_sorts(items, 0, none) {
                        Ok(read) => {
                            assert forall|j: int| 0 <= j < sorts.len() implies read[j]
                                == sorts[j] by {
                                assert(is_sort(items[j], read[j]));
                                assert(is_sort(items[j], sorts[j]));
                            }
                            assert(read =~= sorts);
                        },
                        Err(_) => {
                            let j = choose|j: int|
                                0 <= j < sorts.len() && !is_sort(items[j], #[trigger] sorts[j]);
                            assert(false);
                        },
                    }
                },
            }
        }
    }
}

/// The positions of the keys in a list of options.
spec fn are_starts(
    rest: Seq<egglog::ast::Sexp>,
    groups: Seq<(Seq<char>, Seq<egglog::ast::Sexp>)>,
    starts: Seq<int>,
) -> bool {
    &&& starts.len() == groups.len()
    &&& forall|g: int|
        0 <= g < starts.len() ==> {
            &&& 0 <= #[trigger] starts[g] < rest.len()
            &&& is_word(rest[starts[g]], groups[g].0)
            &&& is_key(rest[starts[g]])
            &&& starts[g] + groups[g].1.len() < rest.len()
        }
    &&& forall|g: int, v: int|
        0 <= g < starts.len() && 0 <= v < groups[g].1.len() ==> #[trigger] groups[g].1[v]
            == rest[starts[g] + 1 + v]
    &&& forall|g: int, h: int| 0 <= g < h < starts.len() ==> #[trigger] starts[g] < #[trigger] starts[h]
    &&& forall|i: int| 0 <= i < rest.len() && is_key(#[trigger] rest[i]) ==> starts.contains(i)
    &&& forall|g: int|
        0 <= g < starts.len() ==> {
            let end = (#[trigger] starts[g]) + 1 + groups[g].1.len();
            &&& end <= rest.len()
            &&& end < rest.len() ==> is_key(rest[end])
        }
    &&& forall|g: int, v: int|
        0 <= g < starts.len() && 0 <= v < groups[g].1.len() ==> !is_key(
            #[trigger] groups[g].1[v],
        )
}

proof fn lemma_next_key(sexps: Seq<egglog::ast::Sexp>, from: int)
    requires
        0 <= from <= sexps.len(),
    ensures
        from <= next_key(sexps, from) <= sexps.len(),
        next_key(sexps, from) < sexps.len() ==> is_key(sexps[next_key(sexps, from)]),
        forall|k: int| from <= k < next_key(sexps, from) ==> !is_key(#[trigger] sexps[k]),
    decreases sexps.len() - from,
{
    if from < sexps.len() && !is_key(sexps[from]) {
        lemma_next_key(sexps, from + 1);
    }
}

proof fn lemma_groups(rest: Seq<egglog::ast::Sexp>) -> (starts: Seq<int>)
    requires
        rest.len() > 0 ==> is_key(rest[0]),
    ensures
        are_starts(rest, option_groups(rest), starts),
    decreases rest.len(),
{
    let groups = option_groups(rest);
    if rest.len() == 0 {
        Seq::empty()
    } else {
        let end = next_key(rest, 1);
        lemma_next_key(rest, 1);
        let tail = rest.skip(end);
        if tail.len() > 0 {
            assert(tail[0] == rest[end]);
        }
        let later = lemma_groups(tail);
        let more = option_groups(tail);
        let starts = seq![0int] + later.map_values(|s: int| s + end);
        assert(groups == seq![(atom(rest[0])->0, rest.subrange(1, end))] + more);
        assert forall|g: int| 0 <= g < starts.len() implies {
            &&& 0 <= #[trigger] starts[g] < rest.len()
            &&& is_word(rest[starts[g]], groups[g].0)
            &&& is_key(rest[starts[g]])
            &&& starts[g] + groups[g].1.len() < rest.len()
        } by {
            if g > 0 {
                assert(starts[g] == later[g - 1] + end);
                assert(groups[g] == more[g - 1]);
                assert(rest[starts[g]] == tail[later[g - 1]]);
            }
        }
        assert forall|g: int, v: int|
            0 <= g < starts.len() && 0 <= v < groups[g].1.len() implies #[trigger] groups[g].1[v]
            == rest[starts[g] + 1 + v] by {
            if g > 0 {
                assert(starts[g] == later[g - 1] + end);
                assert(groups[g] == more[g - 1]);
                assert(more[g - 1].1[v] == tail[later[g - 1] + 1 + v]);
            }
        }
        assert forall|g: int, h: int| 0 <= g < h < starts.len() implies #[trigger] starts[g]
            < #[trigger] starts[h] by {
            assert(starts[h] == later[h - 1] + end);
            assert(0 <= later[h - 1]);
            if g > 0 {
                assert(starts[g] == later[g - 1] + end);
            }
        }
        assert forall|i: int| 0 <= i < rest.len() && is_key(
            #[trigger] rest[i],
        ) implies starts.contains(i) by {
            if i == 0 {
                assert(starts[0] == 0);
            } else {
                assert(i >= end);
                assert(tail[i - end] == rest[i]);
                let g = later.index_of(i - end);
                assert(starts[g + 1] == i);
            }
        }
        assert forall|g: int| 0 <= g < starts.len() implies {
            let stop = (#[trigger] starts[g]) + 1 + groups[g].1.len();
            &&& stop <= rest.len()
            &&& stop < rest.len() ==> is_key(rest[stop])
        } by {
            if g > 0 {
                assert(starts[g] == later[g - 1] + end);
                assert(groups[g] == more[g - 1]);
                let stop = later[g - 1] + 1 + more[g - 1].1.len();
                if stop < tail.len() {
                    assert(tail[stop] == rest[stop + end]);
                }
            }
        }
        assert forall|g: int, v: int|
            0 <= g < starts.len() && 0 <= v < groups[g].1.len() implies !is_key(
            #[trigger] groups[g].1[v],
        ) by {
            if g > 0 {
                assert(groups[g] == more[g - 1]);
                assert(!is_key(more[g - 1].1[v]));
            } else {
                assert(groups[g].1[v] == rest[1 + v]);
            }
        }
        starts
    }
}

/// The word stands in the list, from the position on.
pub open spec fn has_word(tail: Seq<egglog::ast::Sexp>, from: int, word: Seq<char>) -> bool {
    exists|i: int| from <= i < tail.len() && is_word(#[trigger] tail[i], word)
}

/// The word stands in the list at this position and nowhere behind it.
pub open spec fn is_last(
    tail: Seq<egglog::ast::Sexp>,
    from: int,
    word: Seq<char>,
    i: int,
) -> bool {
    &&& from <= i < tail.len()
    &&& is_word(tail[i], word)
    &&& forall|k: int| i < k < tail.len() ==> !is_word(#[trigger] tail[k], word)
}

/// Some group of options has the key.
spec fn has_group(
    groups: Seq<(Seq<char>, Seq<egglog::ast::Sexp>)>,
    from: int,
    key: Seq<char>,
) -> bool {
    exists|g: int| from <= g < groups.len() && (#[trigger] groups[g]).0 == key
}

/// The group has the key, and none behind it has.
spec fn is_last_group(
    groups: Seq<(Seq<char>, Seq<egglog::ast::Sexp>)>,
    from: int,
    key: Seq<char>,
    g: int,
) -> bool {
    &&& from <= g < groups.len()
    &&& groups[g].0 == key
    &&& forall|h: int| g < h < groups.len() ==> (#[trigger] groups[h]).0 != key
}

proof fn lemma_word_is_group(
    tail: Seq<egglog::ast::Sexp>,
    groups: Seq<(Seq<char>, Seq<egglog::ast::Sexp>)>,
    starts: Seq<int>,
    word: Seq<char>,
)
    requires
        tail.len() >= 3,
        are_starts(tail.skip(3), groups, starts),
        starts_colon(word),
    ensures
        has_word(tail, 3, word) <==> has_group(groups, 0, word),
        forall|g: int| #[trigger]
            is_last_group(groups, 0, word, g) ==> is_last(tail, 3, word, 3 + starts[g]),
{
    let rest = tail.skip(3);
    if has_word(tail, 3, word) {
        let i = choose|i: int| 3 <= i < tail.len() && is_word(#[trigger] tail[i], word);
        assert(rest[i - 3] == tail[i]);
        assert(is_key(rest[i - 3]));
        let g = starts.index_of(i - 3);
        assert(is_word(rest[starts[g]], groups[g].0));
        assert(groups[g].0 == word);
    }
    if has_group(groups, 0, word) {
        let g = choose|g: int| 0 <= g < groups.len() && (#[trigger] groups[g]).0 == word;
        assert(is_word(rest[starts[g]], groups[g].0));
        assert(tail[3 + starts[g]] == rest[starts[g]]);
        assert(is_word(tail[3 + starts[g]], word));
    }
    assert forall|g: int| #[trigger] is_last_group(groups, 0, word, g) implies is_last(
        tail,
        3,
        word,
        3 + starts[g],
    ) by {
        assert(is_word(rest[starts[g]], groups[g].0));
        assert(tail[3 + starts[g]] == rest[starts[g]]);
        assert forall|k: int| 3 + starts[g] < k < tail.len() implies !is_word(
            #[trigger] tail[k],
            word,
        ) by {
            if is_word(tail[k], word) {
                assert(rest[k - 3] == tail[k]);
                assert(is_key(rest[k - 3]));
                let h = starts.index_of(k - 3);
                assert(is_word(rest[starts[h]], groups[h].0));
                assert(groups[h].0 == word);
                if h < g {
                    assert(starts[h] < starts[g]);
                }
                assert(h > g);
            }
        }
    }
}

proof fn lemma_option_words()
    ensures
        starts_colon(":unextractable"@),
        starts_colon(":internal-hidden"@),
        starts_colon(":internal-let"@),
        starts_colon(":cost"@),
        starts_colon(":merge"@),
        starts_colon(":no-merge"@),
        starts_colon(":internal-term-constructor"@),
        ":unextractable"@.len() == 14,
        ":internal-hidden"@.len() == 16,
        ":internal-let"@.len() == 13,
        ":cost"@.len() == 5,
        ":merge"@.len() == 6,
        ":no-merge"@.len() == 9,
        ":internal-term-constructor"@.len() == 26,
{
    reveal_strlit(":unextractable");
    reveal_strlit(":internal-hidden");
    reveal_strlit(":internal-let");
    reveal_strlit(":cost");
    reveal_strlit(":merge");
    reveal_strlit(":no-merge");
    reveal_strlit(":internal-term-constructor");
}

/// What the options of a constructor come to.
spec fn are_constructor_options(
    groups: Seq<(Seq<char>, Seq<egglog::ast::Sexp>)>,
    from: int,
    options: ConstructorOptions,
    end: ConstructorOptions,
) -> bool {
    &&& end.unextractable <==> options.unextractable || has_group(groups, from, ":unextractable"@)
    &&& end.hidden <==> options.hidden || has_group(groups, from, ":internal-hidden"@)
    &&& end.let_binding <==> options.let_binding || has_group(groups, from, ":internal-let"@)
    &&& !has_group(groups, from, ":cost"@) ==> end.cost == options.cost
    &&& has_group(groups, from, ":cost"@) ==> exists|g: int|
        {
            &&& #[trigger] is_last_group(groups, from, ":cost"@, g)
            &&& groups[g].1.len() == 1
            &&& uint(groups[g].1[0]) is Some
            &&& end.cost == uint(groups[g].1[0])
        }
    &&& forall|g: int|
        from <= g < groups.len() ==> {
            let (key, values) = #[trigger] groups[g];
            ||| values.len() == 0 && (key == ":unextractable"@ || key == ":internal-hidden"@ || key
                == ":internal-let"@)
            ||| values.len() == 1 && key == ":cost"@
        }
}

proof fn lemma_group_step(
    groups: Seq<(Seq<char>, Seq<egglog::ast::Sexp>)>,
    from: int,
    key: Seq<char>,
)
    requires
        0 <= from < groups.len(),
    ensures
        has_group(groups, from, key) <==> groups[from].0 == key || has_group(groups, from + 1, key),
        forall|g: int| #[trigger]
            is_last_group(groups, from + 1, key, g) ==> is_last_group(groups, from, key, g),
        groups[from].0 == key && !has_group(groups, from + 1, key) ==> is_last_group(
            groups,
            from,
            key,
            from,
        ),
{
    if has_group(groups, from + 1, key) {
        let g = choose|g: int| from + 1 <= g < groups.len() && (#[trigger] groups[g]).0 == key;
        assert(groups[g].0 == key);
    }
    if has_group(groups, from, key) && groups[from].0 != key {
        let g = choose|g: int| from <= g < groups.len() && (#[trigger] groups[g]).0 == key;
        assert(from + 1 <= g && groups[g].0 == key);
    }
}

proof fn lemma_constructor_options(
    groups: Seq<(Seq<char>, Seq<egglog::ast::Sexp>)>,
    span: egglog::ast::Span,
    i: int,
    options: ConstructorOptions,
)
    requires
        0 <= i <= groups.len(),
    ensures
        match constructor_options(groups, span, i, options) {
            Ok(end) => are_constructor_options(groups, i, options, end),
            Err(_) => true,
        },
    decreases groups.len() - i,
{
    lemma_option_words();
    if i < groups.len() {
        let (key, values) = groups[i];
        lemma_group_step(groups, i, ":unextractable"@);
        lemma_group_step(groups, i, ":internal-hidden"@);
        lemma_group_step(groups, i, ":internal-let"@);
        lemma_group_step(groups, i, ":cost"@);
        let next = if key == ":unextractable"@ {
            ConstructorOptions { unextractable: true, ..options }
        } else if key == ":internal-hidden"@ {
            ConstructorOptions { hidden: true, ..options }
        } else if key == ":internal-let"@ {
            ConstructorOptions { let_binding: true, ..options }
        } else {
            ConstructorOptions { cost: uint(values[0]), ..options }
        };
        lemma_constructor_options(groups, span, i + 1, next);
        match constructor_options(groups, span, i, options) {
            Ok(end) => {
                assert(are_constructor_options(groups, i + 1, next, end));
                if has_group(groups, i + 1, ":cost"@) {
                    let g = choose|g: int|
                        {
                            &&& #[trigger] is_last_group(groups, i + 1, ":cost"@, g)
                            &&& groups[g].1.len() == 1
                            &&& uint(groups[g].1[0]) is Some
                            &&& end.cost == uint(groups[g].1[0])
                        };
                    assert(is_last_group(groups, i, ":cost"@, g));
                } else if key == ":cost"@ {
                    assert(is_last_group(groups, i, ":cost"@, i));
                }
                assert(are_constructor_options(groups, i, options, end));
            },
            Err(_) => {},
        }
    }
}

/// The cost is what stands behind the last `:cost`, if there is any.
pub open spec fn is_cost(tail: Seq<egglog::ast::Sexp>, from: int, cost: Option<u64>) -> bool {
    if has_word(tail, from, ":cost"@) {
        exists|i: int|
            {
                &&& #[trigger] is_last(tail, from, ":cost"@, i)
                &&& i + 1 < tail.len()
                &&& cost is Some
                &&& cost == uint(tail[i + 1])
            }
    } else {
        cost is None
    }
}

/// A constructor is declared as its declaration says: with its name, the sorts of its
/// fields and the sort of its values; kept out of extraction if and only if it says
/// `:unextractable`, hidden if and only if it says `:internal-hidden`, a binding if and
/// only if it says `:internal-let`, and with the cost behind `:cost` if it says so. Its calls
/// are spelled with the names of its fields, if they are named.
pub proof fn lemma_constructor_is_as_declared(
    tail: Seq<egglog::ast::Sexp>,
    span: egglog::ast::Span,
    commands: Vec<egglog::ast::Command>,
    asked: Seq<Event>,
)
    requires
        is_declaration(Declaration::Constructor, tail, span, Ok(commands), asked),
    ensures
        tail.len() >= 3,
        commands@.len() == 1,
        match commands@[0] {
            egglog::ast::Command::Constructor {
                span: place,
                name,
                schema,
                cost,
                unextractable,
                hidden,
                let_binding,
                term_constructor,
            } => {
                &&& place == span
                &&& is_word(tail[0], name@)
                &&& is_word(tail[2], schema.output@)
                &&& unextractable <==> has_word(tail, 3, ":unextractable"@)
                &&& hidden <==> has_word(tail, 3, ":internal-hidden"@)
                &&& let_binding <==> has_word(tail, 3, ":internal-let"@)
                &&& is_cost(tail, 3, cost)
                &&& term_constructor is None
                &&& is_spelled(tail[1], name@, texts(schema.input@), asked)
            },
            _ => false,
        },
{
    let usage = "usage: (constructor <name> (<input sort>*) <output sort> <options>*)"@;
    let (head, options) = constructor_declaration(tail, span)->Ok_0;
    let groups = (signature_of(tail, span, usage, "constructor name"@)->Ok_0).1;
    let none = ConstructorOptions {
        cost: None,
        unextractable: false,
        hidden: false,
        let_binding: false,
    };
    lemma_option_words();
    lemma_fields_are_read(tail[1], head.names, head.input);
    let starts = lemma_groups(tail.skip(3));
    lemma_constructor_options(groups, span, 0, none);
    lemma_word_is_group(tail, groups, starts, ":unextractable"@);
    lemma_word_is_group(tail, groups, starts, ":internal-hidden"@);
    lemma_word_is_group(tail, groups, starts, ":internal-let"@);
    lemma_word_is_group(tail, groups, starts, ":cost"@);
    if has_word(tail, 3, ":cost"@) {
        let g = choose|g: int|
            {
                &&& #[trigger] is_last_group(groups, 0, ":cost"@, g)
                &&& groups[g].1.len() == 1
                &&& uint(groups[g].1[0]) is Some
                &&& options.cost == uint(groups[g].1[0])
            };
        assert(groups[g].1[0] == tail.skip(3)[starts[g] + 1 + 0]);
        assert(tail.skip(3)[starts[g] + 1] == tail[3 + starts[g] + 1]);
        assert(is_last(tail, 3, ":cost"@, 3 + starts[g]));
    }
    assert(asked.last() == Event::Spell(head.name, head.names));
}

/// The last that the parser is told is how calls of the name are spelled: with the names of
/// the fields that have these sorts, or by position if they are not named.
pub open spec fn is_spelled(
    input: egglog::ast::Sexp,
    name: Seq<char>,
    sorts: Seq<Seq<char>>,
    asked: Seq<Event>,
) -> bool {
    exists|names: Option<Seq<Seq<char>>>|
        {
            &&& asked.len() > 0
            &&& asked.last() == Event::Spell(name, names)
            &&& #[trigger] has_fields(input, names, sorts)
        }
}

/// A relation is declared as its declaration says: with its name and the sorts of its
/// fields. Its facts are spelled with the names of its fields, if they are named.
pub proof fn lemma_relation_is_as_declared(
    tail: Seq<egglog::ast::Sexp>,
    span: egglog::ast::Span,
    commands: Vec<egglog::ast::Command>,
    asked: Seq<Event>,
)
    requires
        is_declaration(Declaration::Relation, tail, span, Ok(commands), asked),
    ensures
        tail.len() == 2,
        commands@.len() == 1,
        match commands@[0] {
            egglog::ast::Command::Relation { span: place, name, inputs } => {
                &&& place == span
                &&& is_word(tail[0], name@)
                &&& is_spelled(tail[1], name@, texts(inputs@), asked)
            },
            _ => false,
        },
{
    let (name, names, sorts) = relation_declaration(tail, span)->Ok_0;
    lemma_fields_are_read(tail[1], names, sorts);
    assert(asked.last() == Event::Spell(name, names));
}

/// What the options of a function come to.
spec fn are_function_options(
    groups: Seq<(Seq<char>, Seq<egglog::ast::Sexp>)>,
    from: int,
    options: FunctionOptions,
    end: FunctionOptions,
) -> bool {
    &&& end.hidden <==> options.hidden || has_group(groups, from, ":internal-hidden"@)
    &&& end.let_binding <==> options.let_binding || has_group(groups, from, ":internal-let"@)
    &&& end.unextractable <==> options.unextractable || has_group(groups, from, ":unextractable"@)
    &&& !has_group(groups, from, ":internal-term-constructor"@) ==> end.term_constructor
        == options.term_constructor
    &&& has_group(groups, from, ":internal-term-constructor"@) ==> exists|g: int|
        {
            &&& #[trigger] is_last_group(groups, from, ":internal-term-constructor"@, g)
            &&& groups[g].1.len() == 1
            &&& end.term_constructor is Some
            &&& is_word(groups[g].1[0], end.term_constructor->0)
        }
    &&& options.merge is Some ==> end.merge == options.merge && !has_group(
        groups,
        from,
        ":merge"@,
    ) && !has_group(groups, from, ":no-merge"@)
    &&& options.merge is None ==> match end.merge {
        None => !has_group(groups, from, ":merge"@) && !has_group(groups, from, ":no-merge"@),
        Some(None) => !has_group(groups, from, ":merge"@) && has_group(groups, from, ":no-merge"@),
        Some(Some(sexp)) => {
            &&& !has_group(groups, from, ":no-merge"@)
            &&& exists|g: int|
                {
                    &&& #[trigger] is_last_group(groups, from, ":merge"@, g)
                    &&& groups[g].1.len() == 1
                    &&& groups[g].1[0] == sexp
                }
        },
    }
}

proof fn lemma_function_options(
    groups: Seq<(Seq<char>, Seq<egglog::ast::Sexp>)>,
    span: egglog::ast::Span,
    i: int,
    options: FunctionOptions,
)
    requires
        0 <= i <= groups.len(),
    ensures
        match function_options(groups, span, i, options) {
            (merge, Ok(end)) => {
                &&& are_function_options(groups, i, options, end)
                &&& options.merge is Some ==> merge is None
                &&& options.merge is None ==> match end.merge {
                    Some(Some(sexp)) => merge == Some(sexp),
                    _ => merge is None,
                }
            },
            _ => true,
        },
    decreases groups.len() - i,
{
    lemma_option_words();
    if i < groups.len() {
        let (key, values) = groups[i];
        lemma_group_step(groups, i, ":unextractable"@);
        lemma_group_step(groups, i, ":internal-hidden"@);
        lemma_group_step(groups, i, ":internal-let"@);
        lemma_group_step(groups, i, ":merge"@);
        lemma_group_step(groups, i, ":no-merge"@);
        lemma_group_step(groups, i, ":internal-term-constructor"@);
        let next = if key == ":no-merge"@ {
            FunctionOptions { merge: Some(None), ..options }
        } else if key == ":merge"@ {
            FunctionOptions { merge: Some(Some(values[0])), ..options }
        } else if key == ":internal-hidden"@ {
            FunctionOptions { hidden: true, ..options }
        } else if key == ":internal-let"@ {
            FunctionOptions { let_binding: true, ..options }
        } else if key == ":unextractable"@ {
            FunctionOptions { unextractable: true, ..options }
        } else {
            FunctionOptions { term_constructor: Some(atom(values[0])->0), ..options }
        };
        lemma_function_options(groups, span, i + 1, next);
        match function_options(groups, span, i, options) {
            (merge, Ok(end)) => {
                assert(are_function_options(groups, i + 1, next, end));
                let word = ":internal-term-constructor"@;
                if has_group(groups, i + 1, word) {
                    let g = choose|g: int|
                        {
                            &&& #[trigger] is_last_group(groups, i + 1, word, g)
                            &&& groups[g].1.len() == 1
                            &&& end.term_constructor is Some
                            &&& is_word(groups[g].1[0], end.term_constructor->0)
                        };
                    assert(is_last_group(groups, i, word, g));
                } else if key == word {
                    assert(is_last_group(groups, i, word, i));
                }
                if options.merge is None {
                    if key == ":merge"@ {
                        assert(is_last_group(groups, i, ":merge"@, i));
                    } else if let Some(Some(sexp)) = end.merge {
                        if key != ":no-merge"@ {
                            let g = choose|g: int|
                                {
                                    &&& #[trigger] is_last_group(groups, i + 1, ":merge"@, g)
                                    &&& groups[g].1.len() == 1
                                    &&& groups[g].1[0] == sexp
                                };
                            assert(is_last_group(groups, i, ":merge"@, g));
                        }
                    }
                }
                assert(are_function_options(groups, i, options, end));
            },
            _ => {},
        }
    }
}

/// The word behind the last of these words, if there is any.
pub open spec fn is_word_behind(
    tail: Seq<egglog::ast::Sexp>,
    from: int,
    word: Seq<char>,
    found: Option<Seq<char>>,
) -> bool {
    if has_word(tail, from, word) {
        exists|i: int|
            {
                &&& #[trigger] is_last(tail, from, word, i)
                &&& i + 1 < tail.len()
                &&& found is Some
                &&& is_word(tail[i + 1], found->0)
            }
    } else {
        found is None
    }
}

/// The function merges by what the s-expression behind `:merge` was parsed to, if and only if
/// there is one, and otherwise it says `:no-merge`.
pub open spec fn is_merge(
    tail: Seq<egglog::ast::Sexp>,
    from: int,
    merge: Option<egglog::ast::Expr>,
    asked: Seq<Event>,
) -> bool {
    match merge {
        Some(expr) => {
            &&& !has_word(tail, from, ":no-merge"@)
            &&& exists|i: int|
                {
                    &&& #[trigger] is_last(tail, from, ":merge"@, i)
                    &&& i + 1 < tail.len()
                    &&& asked.len() == 2
                    &&& asked[0] == Event::Expr(tail[i + 1], Ok(expr))
                }
        },
        None => {
            &&& has_word(tail, from, ":no-merge"@)
            &&& !has_word(tail, from, ":merge"@)
            &&& asked.len() == 1
        },
    }
}

/// The text of a name, if there is one.
pub open spec fn name_text(name: Option<String>) -> Option<Seq<char>> {
    match name {
        Some(text) => Some(text@),
        None => None,
    }
}

/// A function is declared as its declaration says: with its name, the sorts of its fields
/// and the sort of its values; it merges by the expression behind `:merge`, or says
/// `:no-merge`; it is hidden if and only if it says `:internal-hidden`, a binding if and only
/// if it says `:internal-let`, and kept out of extraction if and only if it says
/// `:unextractable`. Its calls are spelled with the names of its fields, if they are named.
pub proof fn lemma_function_is_as_declared(
    tail: Seq<egglog::ast::Sexp>,
    span: egglog::ast::Span,
    commands: Vec<egglog::ast::Command>,
    asked: Seq<Event>,
)
    requires
        is_declaration(Declaration::Function, tail, span, Ok(commands), asked),
    ensures
        tail.len() >= 3,
        commands@.len() == 1,
        match commands@[0] {
            egglog::ast::Command::Function {
                span: place,
                name,
                schema,
                merge,
                hidden,
                let_binding,
                term_constructor,
                unextractable,
            } => {
                &&& place == span
                &&& is_word(tail[0], name@)
                &&& is_word(tail[2], schema.output@)
                &&& hidden <==> has_word(tail, 3, ":internal-hidden"@)
                &&& let_binding <==> has_word(tail, 3, ":internal-let"@)
                &&& unextractable <==> has_word(tail, 3, ":unextractable"@)
                &&& is_word_behind(
                    tail,
                    3,
                    ":internal-term-constructor"@,
                    name_text(term_constructor),
                )
                &&& is_merge(tail, 3, merge, asked)
                &&& is_spelled(tail[1], name@, texts(schema.input@), asked)
            },
            _ => false,
        },
{
    let result = Ok::<Vec<egglog::ast::Command>, egglog::ast::ParseError>(commands);
    let parsed = choose|parsed: Result<egglog::ast::Expr, egglog::ast::ParseError>| #[trigger]
        is_function_declaration(tail, span, result, parsed, asked);
    let usage = "usage: (function <name> (<input sort>*) <output sort> <options>*)"@;
    let (head, groups) = signature_of(tail, span, usage, "function name"@)->Ok_0;
    let (merge, end) = function_options(groups, span, 0, no_function_options());
    let options = end->Ok_0;
    lemma_option_words();
    lemma_fields_are_read(tail[1], head.names, head.input);
    let starts = lemma_groups(tail.skip(3));
    lemma_function_options(groups, span, 0, no_function_options());
    lemma_word_is_group(tail, groups, starts, ":unextractable"@);
    lemma_word_is_group(tail, groups, starts, ":internal-hidden"@);
    lemma_word_is_group(tail, groups, starts, ":internal-let"@);
    lemma_word_is_group(tail, groups, starts, ":merge"@);
    lemma_word_is_group(tail, groups, starts, ":no-merge"@);
    lemma_word_is_group(tail, groups, starts, ":internal-term-constructor"@);
    let word = ":internal-term-constructor"@;
    if has_word(tail, 3, word) {
        let g = choose|g: int|
            {
                &&& #[trigger] is_last_group(groups, 0, word, g)
                &&& groups[g].1.len() == 1
                &&& options.term_constructor is Some
                &&& is_word(groups[g].1[0], options.term_constructor->0)
            };
        assert(groups[g].1[0] == tail.skip(3)[starts[g] + 1 + 0]);
        assert(tail.skip(3)[starts[g] + 1] == tail[3 + starts[g] + 1]);
        assert(is_last(tail, 3, word, 3 + starts[g]));
    }
    if let Some(Some(sexp)) = options.merge {
        let g = choose|g: int|
            {
                &&& #[trigger] is_last_group(groups, 0, ":merge"@, g)
                &&& groups[g].1.len() == 1
                &&& groups[g].1[0] == sexp
            };
        assert(groups[g].1[0] == tail.skip(3)[starts[g] + 1 + 0]);
        assert(tail.skip(3)[starts[g] + 1] == tail[3 + starts[g] + 1]);
        assert(is_last(tail, 3, ":merge"@, 3 + starts[g]));
    }
    assert(asked.last() == Event::Spell(head.name, head.names));
}

/// The words among these that name fields: those that begin with a colon and are no
/// options. The positions are all of theirs, in order.
pub open spec fn are_field_keys(tail: Seq<egglog::ast::Sexp>, keys: Seq<int>) -> bool {
    &&& forall|k: int, l: int| 0 <= k < l < keys.len() ==> #[trigger] keys[k] < #[trigger] keys[l]
    &&& forall|i: int| #[trigger]
        keys.contains(i) <==> {
            &&& 0 <= i < tail.len()
            &&& is_key(tail[i])
            &&& !is_word(tail[i], ":cost"@)
            &&& !is_word(tail[i], ":unextractable"@)
        }
}

/// The fields and options of a variant with named fields are these.
pub open spec fn is_variant_of(
    tail: Seq<egglog::ast::Sexp>,
    names: Seq<Seq<char>>,
    types: Seq<Seq<char>>,
    cost: Option<u64>,
    unextractable: bool,
    keys: Seq<int>,
) -> bool {
    &&& are_field_keys(tail, keys)
    &&& names.len() == keys.len()
    &&& types.len() == keys.len()
    &&& names.no_duplicates()
    &&& forall|j: int|
        0 <= j < keys.len() ==> {
            &&& (#[trigger] keys[j]) + 1 < tail.len()
            &&& is_word(tail[keys[j]], seq![':'] + names[j])
            &&& is_sort(tail[keys[j] + 1], types[j])
        }
    &&& unextractable <==> has_word(tail, 0, ":unextractable"@)
    &&& is_cost(tail, 0, cost)
}

/// How far the words of a variant have been read.
spec fn is_read_up_to(
    tail: Seq<egglog::ast::Sexp>,
    i: int,
    fields: VariantFields,
    keys: Seq<int>,
    cost_at: int,
) -> bool {
    &&& 0 <= i <= tail.len()
    &&& forall|k: int, l: int| 0 <= k < l < keys.len() ==> #[trigger] keys[k] < #[trigger] keys[l]
    &&& forall|k: int| #[trigger]
        keys.contains(k) <==> {
            &&& 0 <= k < i
            &&& is_key(tail[k])
            &&& !is_word(tail[k], ":cost"@)
            &&& !is_word(tail[k], ":unextractable"@)
        }
    &&& fields.names.len() == keys.len()
    &&& fields.types.len() == keys.len()
    &&& fields.names.no_duplicates()
    &&& forall|j: int|
        0 <= j < keys.len() ==> {
            &&& (#[trigger] keys[j]) + 1 < i
            &&& is_word(tail[keys[j]], seq![':'] + fields.names[j])
            &&& is_sort(tail[keys[j] + 1], fields.types[j])
        }
    &&& fields.unextractable <==> exists|k: int|
        0 <= k < i && is_word(#[trigger] tail[k], ":unextractable"@)
    &&& if cost_at < 0 {
        &&& fields.cost is None
        &&& forall|k: int| 0 <= k < i ==> !is_word(#[trigger] tail[k], ":cost"@)
    } else {
        &&& cost_at + 1 < i
        &&& is_word(tail[cost_at], ":cost"@)
        &&& fields.cost is Some
        &&& fields.cost == uint(tail[cost_at + 1])
        &&& forall|k: int| cost_at < k < i ==> !is_word(#[trigger] tail[k], ":cost"@)
    }
}

proof fn lemma_variant_fields(
    tail: Seq<egglog::ast::Sexp>,
    span: egglog::ast::Span,
    i: int,
    fields: VariantFields,
    keys: Seq<int>,
    cost_at: int,
)
    requires
        is_read_up_to(tail, i, fields, keys, cost_at),
    ensures
        match variant_fields(tail, span, i, fields) {
            Ok(end) => exists|all: Seq<int>| #[trigger]
                is_variant_of(tail, end.names, end.types, end.cost, end.unextractable, all),
            Err(_) => true,
        },
    decreases tail.len() - i,
{
    lemma_option_words();
    if i >= tail.len() {
        assert(are_field_keys(tail, keys));
        if cost_at >= 0 {
            assert(is_last(tail, 0, ":cost"@, cost_at));
        }
        assert(is_variant_of(
            tail,
            fields.names,
            fields.types,
            fields.cost,
            fields.unextractable,
            keys,
        ));
    } else if let Some(key) = atom(tail[i]) {
        if key == ":unextractable"@ {
            let next = VariantFields { unextractable: true, ..fields };
            assert(is_word(tail[i], ":unextractable"@));
            assert(is_read_up_to(tail, i + 1, next, keys, cost_at));
            lemma_variant_fields(tail, span, i + 1, next, keys, cost_at);
        } else if key == ":cost"@ {
            if i + 1 < tail.len() && uint(tail[i + 1]) is Some {
                let next = VariantFields { cost: uint(tail[i + 1]), ..fields };
                assert forall|k: int| #[trigger] keys.contains(k) <==> {
                    &&& 0 <= k < i + 2
                    &&& is_key(tail[k])
                    &&& !is_word(tail[k], ":cost"@)
                    &&& !is_word(tail[k], ":unextractable"@)
                } by {
                    assert(!is_key(tail[i + 1]));
                }
                assert(is_read_up_to(tail, i + 2, next, keys, i));
                lemma_variant_fields(tail, span, i + 2, next, keys, i);
            }
        } else if starts_colon(key) {
            match named_field(tail, i, fields.names) {
                Ok((name, sort)) => {
                    lemma_uncolon(key);
                    let next = VariantFields {
                        names: fields.names.push(name),
                        types: fields.types.push(sort),
                        ..fields
                    };
                    let more = keys.push(i);
                    assert(!is_key(tail[i + 1]));
                    assert forall|k: int| #[trigger] more.contains(k) <==> {
                        &&& 0 <= k < i + 2
                        &&& is_key(tail[k])
                        &&& !is_word(tail[k], ":cost"@)
                        &&& !is_word(tail[k], ":unextractable"@)
                    } by {
                        crate::lists::lemma_push_contains(keys, i, k);
                        assert(keys.contains(k) <==> {
                            &&& 0 <= k < i
                            &&& is_key(tail[k])
                            &&& !is_word(tail[k], ":cost"@)
                            &&& !is_word(tail[k], ":unextractable"@)
                        });
                    }
                    assert forall|k: int, l: int| 0 <= k < l < more.len() implies #[trigger] more[k]
                        < #[trigger] more[l] by {
                        assert(keys.contains(keys[k]));
                    }
                    assert forall|j: int| 0 <= j < more.len() implies {
                        &&& (#[trigger] more[j]) + 1 < i + 2
                        &&& is_word(tail[more[j]], seq![':'] + next.names[j])
                        &&& is_sort(tail[more[j] + 1], next.types[j])
                    } by {
                        if j < keys.len() {
                            assert(more[j] == keys[j]);
                        }
                    }
                    assert(next.names.no_duplicates());
                    assert(is_read_up_to(tail, i + 2, next, more, cost_at));
                    lemma_variant_fields(tail, span, i + 2, next, more, cost_at);
                },
                Err(_) => {},
            }
        }
    }
}

/// The variant is what its declaration says. With named fields it has those, each with the
/// sort behind its name, and is kept out of extraction if and only if it says
/// `:unextractable`, and has the cost behind `:cost` if it says so.
pub open spec fn is_declared_variant(
    sexp: egglog::ast::Sexp,
    variant: egglog::ast::Variant,
    names: Option<Seq<Seq<char>>>,
) -> bool {
    &&& variant.span == sexp_span(sexp)
    &&& sexp matches egglog::ast::Sexp::List(items, _) && {
        &&& items@.len() > 0
        &&& is_word(items@[0], variant.name@)
        &&& match names {
            Some(list) => says_fields(items@.skip(1), variant, list),
            None => items@.len() > 1 && is_key(items@[1]) ==> is_word(items@[1], ":cost"@)
                || is_word(items@[1], ":unextractable"@),
        }
    }
}

/// The words behind the name of the variant say its fields and options.
pub open spec fn says_fields(
    tail: Seq<egglog::ast::Sexp>,
    variant: egglog::ast::Variant,
    names: Seq<Seq<char>>,
) -> bool {
    exists|keys: Seq<int>| #[trigger]
        is_variant_of(
            tail,
            names,
            texts(variant.types@),
            variant.cost,
            variant.unextractable,
            keys,
        )
}

/// A variant of a datatype is what its declaration says.
pub proof fn lemma_variant_is_as_declared(
    sexp: egglog::ast::Sexp,
    variant: egglog::ast::Variant,
    model: VariantModel,
    names: Option<Seq<Seq<char>>>,
)
    requires
        variant_of(sexp) == Ok::<
            (VariantModel, Option<Seq<Seq<char>>>),
            crate::named_args::sexp::Fault,
        >((model, names)),
        is_variant(variant, model),
    ensures
        is_declared_variant(sexp, variant, names),
{
    let (head, tail) = call_of(sexp)->0;
    if let egglog::ast::Sexp::List(items, _) = sexp {
        assert(tail == items@.skip(1));
        assert(is_word(items@[0], head));
        assert(variant.name@ == head);
        if has_named_fields(tail) {
            let none = Seq::<int>::empty();
            assert(is_read_up_to(tail, 0, no_fields(), none, -1));
            lemma_variant_fields(tail, sexp_span(sexp), 0, no_fields(), none, -1);
            let fields = variant_fields(tail, sexp_span(sexp), 0, no_fields())->Ok_0;
            let keys = choose|keys: Seq<int>| #[trigger]
                is_variant_of(
                    tail,
                    fields.names,
                    fields.types,
                    fields.cost,
                    fields.unextractable,
                    keys,
                );
            assert(names == Some(fields.names));
            assert(is_variant_of(
                items@.skip(1),
                fields.names,
                texts(variant.types@),
                variant.cost,
                variant.unextractable,
                keys,
            ));
            assert(says_fields(items@.skip(1), variant, fields.names));
        } else {
            assert(names is None);
            if items@.len() > 1 {
                assert(tail[0] == items@[1]);
            }
        }
    }
}

pub(crate) proof fn lemma_variants_from(
    sexps: Seq<egglog::ast::Sexp>,
    i: int,
    before: Seq<(VariantModel, Option<Seq<Seq<char>>>)>,
)
    requires
        before.len() == i <= sexps.len(),
        forall|k: int|
            0 <= k < i ==> variant_of(sexps[k]) == Ok::<
                (VariantModel, Option<Seq<Seq<char>>>),
                crate::named_args::sexp::Fault,
            >(#[trigger] before[k]),
    ensures
        ({
            let (declared, fault) = variants_from(sexps, i, before);
            &&& declared.len() <= sexps.len()
            &&& fault is None ==> declared.len() == sexps.len()
            &&& fault matches Some(found) ==> declared.len() < sexps.len() && variant_of(
                sexps[declared.len() as int],
            ) == Err::<(VariantModel, Option<Seq<Seq<char>>>), crate::named_args::sexp::Fault>(
                found,
            )
            &&& forall|k: int|
                0 <= k < declared.len() ==> variant_of(sexps[k]) == Ok::<
                    (VariantModel, Option<Seq<Seq<char>>>),
                    crate::named_args::sexp::Fault,
                >(#[trigger] declared[k])
        }),
    decreases sexps.len() - i,
{
    if i < sexps.len() {
        match variant_of(sexps[i]) {
            Ok(variant) => {
                let more = before.push(variant);
                assert forall|k: int| 0 <= k < i + 1 implies variant_of(sexps[k]) == Ok::<
                    (VariantModel, Option<Seq<Seq<char>>>),
                    crate::named_args::sexp::Fault,
                >(#[trigger] more[k]) by {
                    if k < i {
                        assert(more[k] == before[k]);
                    }
                }
                lemma_variants_from(sexps, i + 1, more);
            },
            Err(_) => {},
        }
    }
}

/// The variants are those of the declarations, one for one and in their order, and the
/// parser is told in this order how the calls of each are spelled.
pub open spec fn are_declared(
    sexps: Seq<egglog::ast::Sexp>,
    variants: Seq<egglog::ast::Variant>,
    told: Seq<Event>,
) -> bool {
    &&& variants.len() == sexps.len()
    &&& told.len() == sexps.len()
    &&& forall|k: int| 0 <= k < sexps.len() ==> is_told(#[trigger] sexps[k], variants[k], told[k])
}

/// The variant is what its declaration says, and this tells how its calls are spelled.
pub open spec fn is_told(
    sexp: egglog::ast::Sexp,
    variant: egglog::ast::Variant,
    event: Event,
) -> bool {
    event matches Event::Spell(name, names) && name == variant.name@ && is_declared_variant(
        sexp,
        variant,
        names,
    )
}

proof fn lemma_variants_are_declared(
    sexps: Seq<egglog::ast::Sexp>,
    variants: Seq<egglog::ast::Variant>,
)
    requires
        variants_from(sexps, 0, Seq::empty()).1 is None,
        are_variants(variants, variants_from(sexps, 0, Seq::empty()).0),
    ensures
        are_declared(sexps, variants, spellings(variants_from(sexps, 0, Seq::empty()).0)),
{
    let declared = variants_from(sexps, 0, Seq::empty()).0;
    lemma_variants_from(sexps, 0, Seq::empty());
    assert forall|k: int| 0 <= k < sexps.len() implies is_told(
        #[trigger] sexps[k],
        variants[k],
        spellings(declared)[k],
    ) by {
        assert(variant_of(sexps[k]) == Ok::<
            (VariantModel, Option<Seq<Seq<char>>>),
            crate::named_args::sexp::Fault,
        >(declared[k]));
        assert(is_variant(variants[k], declared[k].0));
        lemma_variant_is_as_declared(sexps[k], variants[k], declared[k].0, declared[k].1);
    }
}

/// A datatype is declared as its declaration says: with its name and its variants, in their
/// order, and the calls of each variant are spelled as its fields are.
pub proof fn lemma_datatype_is_as_declared(
    tail: Seq<egglog::ast::Sexp>,
    span: egglog::ast::Span,
    commands: Vec<egglog::ast::Command>,
    asked: Seq<Event>,
)
    requires
        is_declaration(Declaration::Datatype, tail, span, Ok(commands), asked),
    ensures
        tail.len() >= 1,
        commands@.len() == 1,
        match commands@[0] {
            egglog::ast::Command::Datatype { span: place, name, variants } => {
                &&& place == span
                &&& is_word(tail[0], name@)
                &&& are_declared(tail.skip(1), variants@, asked)
            },
            _ => false,
        },
{
    if let egglog::ast::Command::Datatype { span: place, name, variants } = commands@[0] {
        lemma_variants_are_declared(tail.skip(1), variants@);
    }
}

/// One of several datatypes is what its declaration says: what the parser made of it if it
/// declares a sort of containers, and otherwise its name with its variants.
pub open spec fn is_declared_datatype(
    sexp: egglog::ast::Sexp,
    datatype: (egglog::ast::Span, String, egglog::ast::Subdatatypes),
    told: Seq<Event>,
) -> bool {
    &&& sexp matches egglog::ast::Sexp::List(items, _) && items@.len() > 0 && {
        if is_word(items@[0], "sort"@) {
            told == seq![Event::Datatype(sexp, Ok(datatype))]
        } else {
            &&& datatype.0 == sexp_span(sexp)
            &&& is_word(items@[0], datatype.1@)
            &&& datatype.2 matches egglog::ast::Subdatatypes::Variants(variants) && are_declared(
                items@.skip(1),
                variants@,
                told,
            )
        }
    }
}

/// The datatypes are those of the declarations, one for one and in their order, and what the
/// parser is asked is what each of them asks, one behind the other.
pub open spec fn are_declared_datatypes(
    tail: Seq<egglog::ast::Sexp>,
    datatypes: Seq<(egglog::ast::Span, String, egglog::ast::Subdatatypes)>,
    asked: Seq<Event>,
    places: Seq<int>,
) -> bool {
    &&& datatypes.len() == tail.len()
    &&& places.len() == tail.len() + 1
    &&& places[0] == 0
    &&& places[tail.len() as int] == asked.len()
    &&& forall|k: int|
        0 <= k < tail.len() ==> asks_between(
            #[trigger] tail[k],
            datatypes[k],
            asked,
            places[k],
            places[k + 1],
        )
}

/// The datatype is what its declaration says, and asks what stands between these places.
pub open spec fn asks_between(
    sexp: egglog::ast::Sexp,
    datatype: (egglog::ast::Span, String, egglog::ast::Subdatatypes),
    asked: Seq<Event>,
    from: int,
    to: int,
) -> bool {
    &&& 0 <= from <= to <= asked.len()
    &&& is_declared_datatype(sexp, datatype, asked.subrange(from, to))
}

proof fn lemma_datatypes_run(
    tail: Seq<egglog::ast::Sexp>,
    answers: Seq<
        Result<
            (egglog::ast::Span, String, egglog::ast::Subdatatypes),
            egglog::ast::ParseError,
        >,
    >,
    count: int,
    datatypes: Seq<(egglog::ast::Span, String, egglog::ast::Subdatatypes)>,
)
    requires
        0 <= count <= tail.len(),
        datatypes_run(tail, answers, count).trouble is None,
        datatypes.len() == datatypes_run(tail, answers, count).entries.len(),
        forall|k: int|
            0 <= k < datatypes.len() ==> is_entry(
                #[trigger] datatypes[k],
                datatypes_run(tail, answers, count).entries[k],
            ),
    ensures
        exists|places: Seq<int>| #[trigger]
            are_declared_datatypes(
                tail.take(count),
                datatypes,
                datatypes_run(tail, answers, count).asked,
                places,
            ),
    decreases count,
{
    let run = datatypes_run(tail, answers, count);
    if count == 0 {
        assert(are_declared_datatypes(tail.take(0), datatypes, run.asked, seq![0int]));
    } else {
        let less = datatypes_run(tail, answers, count - 1);
        let front = datatypes.drop_last();
        let sexp = tail[count - 1];
        assert(run.entries.len() == less.entries.len() + 1);
        assert forall|k: int| 0 <= k < front.len() implies is_entry(
            #[trigger] front[k],
            less.entries[k],
        ) by {
            assert(front[k] == datatypes[k]);
            assert(is_entry(datatypes[k], run.entries[k]));
            assert(run.entries[k] == less.entries[k]);
        }
        lemma_datatypes_run(tail, answers, count - 1, front);
        let before = tail.take(count - 1);
        let places = choose|places: Seq<int>| #[trigger]
            are_declared_datatypes(before, front, less.asked, places);
        let longer = places.push(run.asked.len() as int);
        let all = tail.take(count);
        let last = datatypes[count - 1];
        assert(front.len() == count - 1);
        assert(is_entry(datatypes[count - 1], run.entries[count - 1]));
        let told = run.asked.subrange(less.asked.len() as int, run.asked.len() as int);
        let (head, subtail) = call_of(sexp)->0;
        if head == "sort"@ {
            assert(told =~= seq![Event::Datatype(sexp, answers[count - 1])]);
        } else {
            let declared = variants_from(subtail, 0, Seq::empty()).0;
            assert(told =~= spellings(declared));
            if let egglog::ast::Subdatatypes::Variants(variants) = last.2 {
                lemma_variants_are_declared(subtail, variants@);
            }
        }
        assert(is_declared_datatype(sexp, last, told));
        assert forall|k: int| 0 <= k < all.len() implies asks_between(
            #[trigger] all[k],
            datatypes[k],
            run.asked,
            longer[k],
            longer[k + 1],
        ) by {
            if k < count - 1 {
                assert(all[k] == before[k]);
                assert(asks_between(before[k], front[k], less.asked, places[k], places[k + 1]));
                assert(run.asked.subrange(places[k], places[k + 1]) =~= less.asked.subrange(
                    places[k],
                    places[k + 1],
                ));
            } else {
                assert(longer[k] == less.asked.len());
            }
        }
        assert(are_declared_datatypes(all, datatypes, run.asked, longer));
    }
}

/// Several datatypes are declared as their declarations say, one for one and in their order.
pub proof fn lemma_datatypes_are_as_declared(
    tail: Seq<egglog::ast::Sexp>,
    span: egglog::ast::Span,
    commands: Vec<egglog::ast::Command>,
    asked: Seq<Event>,
)
    requires
        is_declaration(Declaration::Datatypes, tail, span, Ok(commands), asked),
    ensures
        commands@.len() == 1,
        match commands@[0] {
            egglog::ast::Command::Datatypes { span: place, datatypes } => {
                &&& place == span
                &&& exists|places: Seq<int>| #[trigger]
                    are_declared_datatypes(tail, datatypes@, asked, places)
            },
            _ => false,
        },
{
    let result = Ok::<Vec<egglog::ast::Command>, egglog::ast::ParseError>(commands);
    let answers = choose|
        answers: Seq<
            Result<
                (egglog::ast::Span, String, egglog::ast::Subdatatypes),
                egglog::ast::ParseError,
            >,
        >,
    | #[trigger] is_datatypes(tail, span, result, asked, answers);
    if let egglog::ast::Command::Datatypes { span: place, datatypes } = commands@[0] {
        lemma_datatypes_run(tail, answers, tail.len() as int, datatypes@);
        assert(tail.take(tail.len() as int) =~= tail);
    }
}

/// Nothing but another key stands behind the position.
pub open spec fn ends_at(tail: Seq<egglog::ast::Sexp>, i: int) -> bool {
    i == tail.len() || i < tail.len() && is_key(tail[i])
}

/// The option at the position is this word, with no value.
pub open spec fn is_flag(tail: Seq<egglog::ast::Sexp>, i: int, word: Seq<char>) -> bool {
    is_word(tail[i], word) && ends_at(tail, i + 1)
}

/// The option at the position is this word, with one value.
pub open spec fn has_one_value(tail: Seq<egglog::ast::Sexp>, i: int, word: Seq<char>) -> bool {
    &&& is_word(tail[i], word)
    &&& i + 1 < tail.len()
    &&& !is_key(tail[i + 1])
    &&& ends_at(tail, i + 2)
}

/// The option at the position is one that a constructor can have.
pub open spec fn is_constructor_option(tail: Seq<egglog::ast::Sexp>, i: int) -> bool {
    ||| is_flag(tail, i, ":unextractable"@)
    ||| is_flag(tail, i, ":internal-hidden"@)
    ||| is_flag(tail, i, ":internal-let"@)
    ||| has_one_value(tail, i, ":cost"@) && uint(tail[i + 1]) is Some
}

/// The arguments begin with a name, a list of fields and a sort, and then come options.
pub open spec fn has_signature(tail: Seq<egglog::ast::Sexp>) -> bool {
    &&& tail.len() >= 3
    &&& tail[0] is Atom
    &&& lists_fields(tail[1])
    &&& tail[2] is Atom
    &&& ends_at(tail, 3)
}

/// The s-expression is a list of fields.
pub open spec fn lists_fields(input: egglog::ast::Sexp) -> bool {
    exists|names: Option<Seq<Seq<char>>>, sorts: Seq<Seq<char>>| #[trigger]
        has_fields(input, names, sorts)
}

proof fn lemma_signature_is_read(
    tail: Seq<egglog::ast::Sexp>,
    span: egglog::ast::Span,
    usage: Seq<char>,
    expected: Seq<char>,
)
    ensures
        has_signature(tail) <==> signature_of(tail, span, usage, expected) is Ok,
        signature_of(tail, span, usage, expected) matches Ok((_, groups)) ==> groups
            == option_groups(tail.skip(3)) && (tail.len() > 3 ==> is_key(tail.skip(3)[0])),
{
    if tail.len() >= 3 {
        if tail.len() > 3 {
            assert(tail.skip(3)[0] == tail[3]);
        }
        if lists_fields(tail[1]) {
            let (names, sorts) = choose|
                names: Option<Seq<Seq<char>>>,
                sorts: Seq<Seq<char>>,
            | #[trigger] has_fields(tail[1], names, sorts);
            lemma_fields_are_read(tail[1], names, sorts);
        }
        if let Ok((names, sorts)) = schema_list(tail[1]) {
            lemma_fields_are_read(tail[1], names, sorts);
            assert(has_fields(tail[1], names, sorts));
        }
    }
}

/// The group is one that a constructor can have.
spec fn is_constructor_group(group: (Seq<char>, Seq<egglog::ast::Sexp>)) -> bool {
    ||| group.1.len() == 0 && (group.0 == ":unextractable"@ || group.0 == ":internal-hidden"@
        || group.0 == ":internal-let"@)
    ||| group.1.len() == 1 && group.0 == ":cost"@ && uint(group.1[0]) is Some
}

proof fn lemma_constructor_options_are_taken(
    groups: Seq<(Seq<char>, Seq<egglog::ast::Sexp>)>,
    span: egglog::ast::Span,
    i: int,
    options: ConstructorOptions,
)
    requires
        0 <= i <= groups.len(),
    ensures
        constructor_options(groups, span, i, options) is Ok <==> forall|g: int|
            i <= g < groups.len() ==> is_constructor_group(#[trigger] groups[g]),
    decreases groups.len() - i,
{
    lemma_option_words();
    if i < groups.len() {
        let (key, values) = groups[i];
        let next = if key == ":unextractable"@ {
            ConstructorOptions { unextractable: true, ..options }
        } else if key == ":internal-hidden"@ {
            ConstructorOptions { hidden: true, ..options }
        } else if key == ":internal-let"@ {
            ConstructorOptions { let_binding: true, ..options }
        } else {
            ConstructorOptions { cost: uint(values[0]), ..options }
        };
        lemma_constructor_options_are_taken(groups, span, i + 1, next);
        assert(groups[i] == (key, values));
        if is_constructor_group(groups[i]) {
            assert(constructor_options(groups, span, i, options) == constructor_options(
                groups,
                span,
                i + 1,
                next,
            ));
        } else {
            assert(constructor_options(groups, span, i, options) is Err);
        }
    }
}

proof fn lemma_group_is_option(
    tail: Seq<egglog::ast::Sexp>,
    groups: Seq<(Seq<char>, Seq<egglog::ast::Sexp>)>,
    starts: Seq<int>,
    g: int,
)
    requires
        tail.len() >= 3,
        are_starts(tail.skip(3), groups, starts),
        0 <= g < groups.len(),
    ensures
        3 <= starts[g] + 3 < tail.len(),
        is_word(tail[starts[g] + 3], groups[g].0),
        is_key(tail[starts[g] + 3]),
        groups[g].1.len() == 0 <==> ends_at(tail, starts[g] + 4),
        groups[g].1.len() == 1 <==> starts[g] + 4 < tail.len() && !is_key(tail[starts[g] + 4])
            && ends_at(tail, starts[g] + 5),
        groups[g].1.len() == 1 ==> groups[g].1[0] == tail[starts[g] + 4],
{
    let rest = tail.skip(3);
    let at = starts[g];
    let values = groups[g].1;
    assert(tail[at + 3] == rest[at]);
    let end = at + 1 + values.len();
    if end < rest.len() {
        assert(tail[end + 3] == rest[end]);
        assert(is_key(rest[end]));
    }
    if values.len() > 0 {
        assert(!is_key(values[0]));
        assert(values[0] == rest[at + 1 + 0]);
        assert(tail[at + 4] == rest[at + 1]);
    }
    if values.len() > 1 {
        assert(!is_key(values[1]));
        assert(values[1] == rest[at + 1 + 1]);
        assert(tail[at + 5] == rest[at + 2]);
    }
}

/// An option stands in the arguments of a declaration: its key, and its value behind that.
pub(crate) proof fn lemma_group_place(tail: Seq<egglog::ast::Sexp>, g: int) -> (i: int)
    requires
        tail.len() >= 3,
        tail.len() > 3 ==> is_key(tail[3]),
        0 <= g < option_groups(tail.skip(3)).len(),
    ensures
        3 <= i < tail.len(),
        is_word(tail[i], option_groups(tail.skip(3))[g].0),
        option_groups(tail.skip(3))[g].1.len() == 1 ==> i + 1 < tail.len()
            && option_groups(tail.skip(3))[g].1[0] == tail[i + 1],
{
    let groups = option_groups(tail.skip(3));
    if tail.len() > 3 {
        assert(tail.skip(3)[0] == tail[3]);
    }
    let starts = lemma_groups(tail.skip(3));
    lemma_group_is_option(tail, groups, starts, g);
    starts[g] + 3
}

/// Options stand in the arguments of a declaration in their order.
pub(crate) proof fn lemma_groups_in_order(tail: Seq<egglog::ast::Sexp>, g: int, h: int) -> (places: (
    int,
    int,
))
    requires
        tail.len() >= 3,
        tail.len() > 3 ==> is_key(tail[3]),
        0 <= g < h < option_groups(tail.skip(3)).len(),
    ensures
        3 <= places.0 < places.1 < tail.len(),
        is_word(tail[places.0], option_groups(tail.skip(3))[g].0),
        is_word(tail[places.1], option_groups(tail.skip(3))[h].0),
{
    let groups = option_groups(tail.skip(3));
    if tail.len() > 3 {
        assert(tail.skip(3)[0] == tail[3]);
    }
    let starts = lemma_groups(tail.skip(3));
    lemma_group_is_option(tail, groups, starts, g);
    lemma_group_is_option(tail, groups, starts, h);
    assert(starts[g] < starts[h]);
    (starts[g] + 3, starts[h] + 3)
}

/// Every key in the arguments of a declaration is that of an option.
pub(crate) proof fn lemma_key_is_group(tail: Seq<egglog::ast::Sexp>, i: int) -> (g: int)
    requires
        tail.len() >= 3,
        is_key(tail[3]),
        3 <= i < tail.len(),
        is_key(tail[i]),
    ensures
        0 <= g < option_groups(tail.skip(3)).len(),
        is_word(tail[i], option_groups(tail.skip(3))[g].0),
{
    let groups = option_groups(tail.skip(3));
    assert(tail.skip(3)[0] == tail[3]);
    let starts = lemma_groups(tail.skip(3));
    assert(tail.skip(3)[i - 3] == tail[i]);
    let g = starts.index_of(i - 3);
    lemma_group_is_option(tail, groups, starts, g);
    g
}

/// A constructor is declared if and only if its arguments are a name, a list of fields, a sort
/// and then options that a constructor can have.
pub proof fn lemma_constructor_declarations_are_taken(
    tail: Seq<egglog::ast::Sexp>,
    span: egglog::ast::Span,
    result: Result<Vec<egglog::ast::Command>, egglog::ast::ParseError>,
    asked: Seq<Event>,
)
    requires
        is_declaration(Declaration::Constructor, tail, span, result, asked),
    ensures
        result is Ok <==> has_signature(tail) && forall|i: int|
            3 <= i < tail.len() && is_key(#[trigger] tail[i]) ==> is_constructor_option(tail, i),
        result is Err ==> asked.len() == 0,
{
    let usage = "usage: (constructor <name> (<input sort>*) <output sort> <options>*)"@;
    let none = ConstructorOptions {
        cost: None,
        unextractable: false,
        hidden: false,
        let_binding: false,
    };
    lemma_signature_is_read(tail, span, usage, "constructor name"@);
    if has_signature(tail) {
        let groups = option_groups(tail.skip(3));
        let starts = lemma_groups(tail.skip(3));
        lemma_constructor_options_are_taken(groups, span, 0, none);
        assert forall|g: int| 0 <= g < groups.len() implies (is_constructor_group(
            #[trigger] groups[g],
        ) <==> is_constructor_option(tail, starts[g] + 3)) by {
            lemma_option_words();
            lemma_group_is_option(tail, groups, starts, g);
        }
        if result is Ok {
            assert forall|i: int| 3 <= i < tail.len() && is_key(
                #[trigger] tail[i],
            ) implies is_constructor_option(tail, i) by {
                assert(tail.skip(3)[i - 3] == tail[i]);
                let g = starts.index_of(i - 3);
                assert(is_constructor_group(groups[g]));
            }
        }
        if forall|i: int|
            3 <= i < tail.len() && is_key(#[trigger] tail[i]) ==> is_constructor_option(tail, i) {
            assert forall|g: int| 0 <= g < groups.len() implies is_constructor_group(
                #[trigger] groups[g],
            ) by {
                lemma_group_is_option(tail, groups, starts, g);
                assert(is_constructor_option(tail, starts[g] + 3));
            }
        }
    }
}

/// A relation is declared if and only if its arguments are a name and a list of fields.
pub proof fn lemma_relation_declarations_are_taken(
    tail: Seq<egglog::ast::Sexp>,
    span: egglog::ast::Span,
    result: Result<Vec<egglog::ast::Command>, egglog::ast::ParseError>,
    asked: Seq<Event>,
)
    requires
        is_declaration(Declaration::Relation, tail, span, result, asked),
    ensures
        result is Ok <==> tail.len() == 2 && tail[0] is Atom && lists_fields(tail[1]),
        result is Err ==> asked.len() == 0,
{
    if tail.len() == 2 {
        if lists_fields(tail[1]) {
            let (names, sorts) = choose|
                names: Option<Seq<Seq<char>>>,
                sorts: Seq<Seq<char>>,
            | #[trigger] has_fields(tail[1], names, sorts);
            lemma_fields_are_read(tail[1], names, sorts);
        }
        if let Ok((names, sorts)) = schema_list(tail[1]) {
            lemma_fields_are_read(tail[1], names, sorts);
            assert(has_fields(tail[1], names, sorts));
        }
    }
}

/// The group is one that a function can have.
spec fn is_function_group(group: (Seq<char>, Seq<egglog::ast::Sexp>)) -> bool {
    ||| group.1.len() == 0 && (group.0 == ":unextractable"@ || group.0 == ":internal-hidden"@
        || group.0 == ":internal-let"@ || group.0 == ":no-merge"@)
    ||| group.1.len() == 1 && group.0 == ":merge"@
    ||| group.1.len() == 1 && group.0 == ":internal-term-constructor"@ && group.1[0] is Atom
}

/// The option at the position is one that a function can have.
pub open spec fn is_function_option(tail: Seq<egglog::ast::Sexp>, i: int) -> bool {
    ||| is_flag(tail, i, ":unextractable"@)
    ||| is_flag(tail, i, ":internal-hidden"@)
    ||| is_flag(tail, i, ":internal-let"@)
    ||| is_flag(tail, i, ":no-merge"@)
    ||| has_one_value(tail, i, ":merge"@)
    ||| has_one_value(tail, i, ":internal-term-constructor"@) && tail[i + 1] is Atom
}

/// The group says how the function merges.
spec fn says_merge(group: (Seq<char>, Seq<egglog::ast::Sexp>)) -> bool {
    group.0 == ":merge"@ || group.0 == ":no-merge"@
}

proof fn lemma_function_options_are_taken(
    groups: Seq<(Seq<char>, Seq<egglog::ast::Sexp>)>,
    span: egglog::ast::Span,
    i: int,
    options: FunctionOptions,
)
    requires
        0 <= i <= groups.len(),
        forall|g: int| i <= g < groups.len() ==> is_function_group(#[trigger] groups[g]),
        forall|g: int, h: int|
            i <= g < h < groups.len() ==> !(says_merge(#[trigger] groups[g]) && says_merge(
                #[trigger] groups[h],
            )),
        options.merge is Some ==> forall|g: int|
            i <= g < groups.len() ==> !says_merge(#[trigger] groups[g]),
    ensures
        function_options(groups, span, i, options).1 is Ok,
        options.merge is None ==> (((function_options(groups, span, i, options).1)->Ok_0).merge is Some
            <==> exists|g: int| i <= g < groups.len() && says_merge(#[trigger] groups[g])),
        options.merge is Some ==> ((function_options(groups, span, i, options).1)->Ok_0).merge is Some,
    decreases groups.len() - i,
{
    lemma_option_words();
    if i < groups.len() {
        let (key, values) = groups[i];
        assert(is_function_group(groups[i]));
        let next = if key == ":no-merge"@ {
            FunctionOptions { merge: Some(None), ..options }
        } else if key == ":merge"@ {
            FunctionOptions { merge: Some(Some(values[0])), ..options }
        } else if key == ":internal-hidden"@ {
            FunctionOptions { hidden: true, ..options }
        } else if key == ":internal-let"@ {
            FunctionOptions { let_binding: true, ..options }
        } else if key == ":unextractable"@ {
            FunctionOptions { unextractable: true, ..options }
        } else {
            FunctionOptions { term_constructor: Some(atom(values[0])->0), ..options }
        };
        if says_merge(groups[i]) {
            assert(options.merge is None);
            assert forall|g: int| i + 1 <= g < groups.len() implies !says_merge(
                #[trigger] groups[g],
            ) by {}
        }
        lemma_function_options_are_taken(groups, span, i + 1, next);
        assert(function_options(groups, span, i, options).1 == function_options(
            groups,
            span,
            i + 1,
            next,
        ).1);
        if options.merge is None && !says_merge(groups[i]) {
            if exists|g: int| i <= g < groups.len() && says_merge(#[trigger] groups[g]) {
                let g = choose|g: int| i <= g < groups.len() && says_merge(#[trigger] groups[g]);
                assert(i + 1 <= g && says_merge(groups[g]));
            }
        }
    }
}

/// The option at the position says how the function merges.
pub open spec fn is_merge_option(tail: Seq<egglog::ast::Sexp>, i: int) -> bool {
    is_word(tail[i], ":merge"@) || is_word(tail[i], ":no-merge"@)
}

/// A function is declared if its arguments are a name, a list of fields, a sort and then options
/// that a function can have, of which just one says how it merges, unless the expression by
/// which it does is not parsed.
pub proof fn lemma_function_declarations_are_taken(
    tail: Seq<egglog::ast::Sexp>,
    span: egglog::ast::Span,
    result: Result<Vec<egglog::ast::Command>, egglog::ast::ParseError>,
    asked: Seq<Event>,
    at: int,
)
    requires
        is_declaration(Declaration::Function, tail, span, result, asked),
        has_signature(tail),
        forall|i: int|
            3 <= i < tail.len() && is_key(#[trigger] tail[i]) ==> is_function_option(tail, i),
        3 <= at < tail.len(),
        is_merge_option(tail, at),
        forall|i: int| 3 <= i < tail.len() && i != at ==> !is_merge_option(tail, i),
    ensures
        result is Ok || asked.len() == 1 && (asked[0] matches Event::Expr(sexp, Err(error))
            && result == Err::<Vec<egglog::ast::Command>, egglog::ast::ParseError>(error)),
{
    lemma_option_words();
    let parsed = choose|parsed: Result<egglog::ast::Expr, egglog::ast::ParseError>| #[trigger]
        is_function_declaration(tail, span, result, parsed, asked);
    let usage = "usage: (function <name> (<input sort>*) <output sort> <options>*)"@;
    lemma_signature_is_read(tail, span, usage, "function name"@);
    let groups = option_groups(tail.skip(3));
    let starts = lemma_groups(tail.skip(3));
    assert forall|g: int| 0 <= g < groups.len() implies is_function_group(#[trigger] groups[g]) by {
        lemma_group_is_option(tail, groups, starts, g);
        assert(is_function_option(tail, starts[g] + 3));
    }
    assert forall|g: int, h: int| 0 <= g < h < groups.len() implies !(says_merge(
        #[trigger] groups[g],
    ) && says_merge(#[trigger] groups[h])) by {
        lemma_group_is_option(tail, groups, starts, g);
        lemma_group_is_option(tail, groups, starts, h);
        assert(starts[g] < starts[h]);
        if says_merge(groups[g]) {
            assert(is_merge_option(tail, starts[g] + 3));
        }
        if says_merge(groups[h]) {
            assert(is_merge_option(tail, starts[h] + 3));
        }
    }
    lemma_function_options_are_taken(groups, span, 0, no_function_options());
    assert(tail.skip(3)[at - 3] == tail[at]);
    let g = starts.index_of(at - 3);
    lemma_group_is_option(tail, groups, starts, g);
    assert(says_merge(groups[g]));
}

/// The words of a variant with named fields are fine from the position on: each key is an
/// option or the name of a field that no other has, with what belongs behind it.
pub open spec fn is_variant_word(tail: Seq<egglog::ast::Sexp>, i: int) -> bool {
    if is_word(tail[i], ":unextractable"@) {
        ends_at(tail, i + 1)
    } else if is_word(tail[i], ":cost"@) {
        has_one_value(tail, i, ":cost"@) && uint(tail[i + 1]) is Some
    } else {
        &&& i + 1 < tail.len()
        &&& tail[i + 1] is Atom
        &&& !is_key(tail[i + 1])
        &&& ends_at(tail, i + 2)
        &&& forall|k: int|
            0 <= k < i && is_key(#[trigger] tail[k]) ==> atom(tail[k]) != atom(tail[i])
    }
}

proof fn lemma_variant_words_are_taken(
    tail: Seq<egglog::ast::Sexp>,
    span: egglog::ast::Span,
    i: int,
    fields: VariantFields,
)
    requires
        0 <= i,
        ends_at(tail, i),
        forall|k: int| 0 <= k < tail.len() && is_key(#[trigger] tail[k]) ==> is_variant_word(tail, k),
        forall|name: Seq<char>| #[trigger]
            fields.names.contains(name) ==> exists|k: int|
                0 <= k < i && is_key(#[trigger] tail[k]) && is_word(tail[k], seq![':'] + name),
    ensures
        variant_fields(tail, span, i, fields) is Ok,
    decreases tail.len() - i,
{
    lemma_option_words();
    if i < tail.len() {
        assert(is_variant_word(tail, i));
        let key = atom(tail[i])->0;
        if key == ":unextractable"@ {
            let next = VariantFields { unextractable: true, ..fields };
            lemma_variant_words_are_taken(tail, span, i + 1, next);
        } else if key == ":cost"@ {
            let next = VariantFields { cost: uint(tail[i + 1]), ..fields };
            lemma_variant_words_are_taken(tail, span, i + 2, next);
        } else {
            lemma_uncolon(key);
            let name = key.skip(1);
            let sort = atom(tail[i + 1])->0;
            if fields.names.contains(name) {
                let k = choose|k: int|
                    0 <= k < i && is_key(#[trigger] tail[k]) && is_word(
                        tail[k],
                        seq![':'] + name,
                    );
                assert(atom(tail[k]) == atom(tail[i]));
            }
            assert(named_field(tail, i, fields.names) is Ok);
            let next = VariantFields {
                names: fields.names.push(name),
                types: fields.types.push(sort),
                ..fields
            };
            assert forall|other: Seq<char>| #[trigger] next.names.contains(other) implies exists|
                k: int,
            |
                0 <= k < i + 2 && is_key(#[trigger] tail[k]) && is_word(
                    tail[k],
                    seq![':'] + other,
                ) by {
                crate::lists::lemma_push_contains(fields.names, name, other);
                if fields.names.contains(other) {
                    let k = choose|k: int|
                        0 <= k < i && is_key(#[trigger] tail[k]) && is_word(
                            tail[k],
                            seq![':'] + other,
                        );
                    assert(0 <= k < i + 2 && is_key(tail[k]));
                } else {
                    assert(is_key(tail[i]));
                }
            }
            lemma_variant_words_are_taken(tail, span, i + 2, next);
        }
    }
}

/// A variant with named fields is declared if each of its words is fine.
pub proof fn lemma_named_variants_are_taken(
    sexp: egglog::ast::Sexp,
    head: Seq<char>,
    tail: Seq<egglog::ast::Sexp>,
)
    requires
        call_of(sexp) == Some((head, tail)),
        tail.len() > 0,
        is_key(tail[0]),
        !is_word(tail[0], ":cost"@),
        !is_word(tail[0], ":unextractable"@),
        forall|k: int| 0 <= k < tail.len() && is_key(#[trigger] tail[k]) ==> is_variant_word(tail, k),
    ensures
        variant_of(sexp) is Ok,
        (variant_of(sexp)->Ok_0).1 is Some,
{
    lemma_variant_words_are_taken(tail, sexp_span(sexp), 0, no_fields());
}

/// A datatype is declared if and only if it has a name and all its variants are declared. The
/// parser is told of each variant up to the first that is not.
pub proof fn lemma_datatype_declarations_are_taken(
    tail: Seq<egglog::ast::Sexp>,
    span: egglog::ast::Span,
    result: Result<Vec<egglog::ast::Command>, egglog::ast::ParseError>,
    asked: Seq<Event>,
)
    requires
        is_declaration(Declaration::Datatype, tail, span, result, asked),
    ensures
        result is Ok <==> tail.len() > 0 && tail[0] is Atom && forall|k: int|
            1 <= k < tail.len() ==> variant_of(#[trigger] tail[k]) is Ok,
        tail.len() > 0 && tail[0] is Atom ==> forall|k: int|
            0 <= k < asked.len() ==> {
                &&& k + 1 < tail.len()
                &&& variant_of(tail[k + 1]) matches Ok((model, names)) && #[trigger] asked[k]
                    == Event::Spell(model.name, names)
            },
{
    if tail.len() > 0 && tail[0] is Atom {
        let sexps = tail.skip(1);
        let (declared, fault) = variants_from(sexps, 0, Seq::empty());
        lemma_variants_from(sexps, 0, Seq::empty());
        assert forall|k: int| 0 <= k < asked.len() implies {
            &&& k + 1 < tail.len()
            &&& variant_of(tail[k + 1]) matches Ok((model, names)) && #[trigger] asked[k]
                == Event::Spell(model.name, names)
        } by {
            assert(sexps[k] == tail[k + 1]);
            assert(variant_of(sexps[k]) == Ok::<
                (VariantModel, Option<Seq<Seq<char>>>),
                crate::named_args::sexp::Fault,
            >(declared[k]));
        }
        if fault is None {
            assert forall|k: int| 1 <= k < tail.len() implies variant_of(
                #[trigger] tail[k],
            ) is Ok by {
                assert(sexps[k - 1] == tail[k]);
                assert(variant_of(sexps[k - 1]) == Ok::<
                    (VariantModel, Option<Seq<Seq<char>>>),
                    crate::named_args::sexp::Fault,
                >(declared[k - 1]));
            }
        } else {
            let n = declared.len() as int;
            assert(sexps[n] == tail[n + 1]);
        }
    }
}

/// One of several datatypes can be declared: it is a list that begins with a word, and unless
/// that is `sort`, all variants behind it are declared.
pub open spec fn is_fine_datatype(sexp: egglog::ast::Sexp) -> bool {
    &&& sexp matches egglog::ast::Sexp::List(items, _)
    &&& items@.len() > 0
    &&& items@[0] is Atom
    &&& is_word(items@[0], "sort"@) || forall|k: int|
        1 <= k < items@.len() ==> variant_of(#[trigger] items@[k]) is Ok
}

proof fn lemma_run_is_taken(
    tail: Seq<egglog::ast::Sexp>,
    answers: Seq<
        Result<
            (egglog::ast::Span, String, egglog::ast::Subdatatypes),
            egglog::ast::ParseError,
        >,
    >,
    count: int,
)
    requires
        0 <= count <= tail.len(),
        forall|k: int| 0 <= k < count ==> is_fine_datatype(#[trigger] tail[k]),
    ensures
        match datatypes_run(tail, answers, count).trouble {
            None => true,
            Some(Trouble::Found(_)) => false,
            Some(Trouble::Given(error)) => {
                let asked = datatypes_run(tail, answers, count).asked;
                &&& asked.len() > 0
                &&& asked.last() matches Event::Datatype(_, Err(given)) && given == error
            },
        },
    decreases count,
{
    if count > 0 {
        lemma_run_is_taken(tail, answers, count - 1);
        let sub = tail[count - 1];
        assert(is_fine_datatype(sub));
        if let egglog::ast::Sexp::List(items, _) = sub {
            assert(call_of(sub) is Some);
            let (head, subtail) = call_of(sub)->0;
            assert(subtail == items@.skip(1));
            if head != "sort"@ {
                lemma_variants_from(subtail, 0, Seq::empty());
                let (declared, fault) = variants_from(subtail, 0, Seq::empty());
                if fault is Some {
                    let n = declared.len() as int;
                    assert(subtail[n] == items@[n + 1]);
                    assert(variant_of(items@[n + 1]) is Ok);
                }
            }
        }
    }
}

/// Several datatypes are declared if each of them can be, unless the parser refuses a sort
/// among them, and then the error is that of the parser.
pub proof fn lemma_datatypes_declarations_are_taken(
    tail: Seq<egglog::ast::Sexp>,
    span: egglog::ast::Span,
    result: Result<Vec<egglog::ast::Command>, egglog::ast::ParseError>,
    asked: Seq<Event>,
)
    requires
        is_declaration(Declaration::Datatypes, tail, span, result, asked),
        forall|k: int| 0 <= k < tail.len() ==> is_fine_datatype(#[trigger] tail[k]),
    ensures
        match result {
            Ok(_) => true,
            Err(error) => {
                &&& asked.len() > 0
                &&& asked.last() matches Event::Datatype(_, Err(given)) && given == error
            },
        },
{
    let answers = choose|
        answers: Seq<
            Result<
                (egglog::ast::Span, String, egglog::ast::Subdatatypes),
                egglog::ast::ParseError,
            >,
        >,
    | #[trigger] is_datatypes(tail, span, result, asked, answers);
    lemma_run_is_taken(tail, answers, tail.len() as int);
}

} // verus!
