//! What is said of a declaration that is wrong, and of which place.

use vstd::prelude::*;
use crate::named_args::declare::{
    constructor_options, function_options, is_declaration, is_function_declaration,
    no_function_options, signature_of, variants_from, ConstructorOptions, Declaration,
    FunctionOptions,
};
use crate::named_args::declared::{
    has_fields, is_word, lemma_fields_are_read, lemma_group_place, lemma_groups_in_order,
    lemma_key_is_group, lemma_variants_from, lists_fields,
};
use crate::named_args::fields::{
    named_sorts, no_fields, positional_sorts, schema_list, variant_fields, variant_of,
    VariantFields,
};
use crate::named_args::meaning::key_name;
use crate::named_args::parser::Event;
use crate::named_args::sexp::{
    atom, call_of, is_key, option_groups, says, sexp_span, starts_colon, uint, Fault, VariantModel,
};

verus! {

/// The s-expression is a word that does not begin with a colon.
pub open spec fn is_plain(sexp: egglog::ast::Sexp) -> bool {
    sexp is Atom && !is_key(sexp)
}

/// The text of a word.
pub open spec fn text_of(sexp: egglog::ast::Sexp) -> Seq<char> {
    match sexp {
        egglog::ast::Sexp::Atom(text, _) => text@,
        _ => Seq::empty(),
    }
}

/// Why a list of fields without names is wrong at position `i`, and nowhere before.
pub open spec fn is_unnamed_reason(
    items: Seq<egglog::ast::Sexp>,
    i: int,
    place: egglog::ast::Span,
    text: Seq<char>,
) -> bool {
    &&& 0 <= i < items.len()
    &&& forall|k: int| 0 <= k < i ==> is_plain(#[trigger] items[k])
    &&& place == sexp_span(items[i])
    &&& {
        ||| !(items[i] is Atom) && text == "expected "@ + "input sort"@
        ||| {
            &&& is_key(items[i])
            &&& text == "unexpected named argument `"@ + text_of(items[i])
                + "`; name either all fields or none"@
        }
    }
}

/// The field whose name stands at position `i` has a name and a sort.
pub open spec fn has_field(items: Seq<egglog::ast::Sexp>, i: int) -> bool {
    &&& is_key(items[i])
    &&& i + 1 < items.len()
    &&& is_plain(items[i + 1])
}

/// Why a list of fields with names is wrong at the field whose name should stand at position
/// `i`, and nowhere before.
pub open spec fn is_named_reason(
    items: Seq<egglog::ast::Sexp>,
    i: int,
    place: egglog::ast::Span,
    text: Seq<char>,
) -> bool {
    let item = items[i];
    let next = items[i + 1];
    let name = key_name(item);
    &&& 0 <= i < items.len()
    &&& i % 2 == 0
    &&& forall|k: int| 0 <= k < i && k % 2 == 0 ==> #[trigger] has_field(items, k)
    &&& {
        ||| {
            &&& !(item is Atom)
            &&& place == sexp_span(item)
            &&& text == "expected "@ + "argument name"@
        }
        ||| {
            &&& is_plain(item)
            &&& place == sexp_span(item)
            &&& text == "expected `:name` but found `"@ + text_of(item)
                + "`; name either all fields or none"@
        }
        ||| {
            &&& is_key(item)
            &&& i == items.len() - 1
            &&& place == sexp_span(item)
            &&& text == "argument `"@ + name + "` is missing its sort"@
        }
        ||| {
            &&& is_key(item)
            &&& i < items.len() - 1
            &&& !(next is Atom)
            &&& place == sexp_span(next)
            &&& text == "expected "@ + "argument sort"@
        }
        ||| {
            &&& is_key(item)
            &&& i < items.len() - 1
            &&& is_key(next)
            &&& place == sexp_span(next)
            &&& text == "expected a sort for `"@ + name + "` but found `"@ + text_of(next) + "`"@
        }
        ||| {
            &&& has_field(items, i)
            &&& exists|k: int| #[trigger] has_field(items, k) && 0 <= k < i && k % 2 == 0
                && key_name(items[k]) == name
            &&& place == sexp_span(item)
            &&& text == "duplicate argument name `"@ + name + "`"@
        }
    }
}

/// Why a list of fields is wrong: this is said of this place.
pub open spec fn is_field_reason(
    input: egglog::ast::Sexp,
    place: egglog::ast::Span,
    text: Seq<char>,
) -> bool {
    match input {
        egglog::ast::Sexp::List(items, _) => if items@.len() > 0 && is_key(items@[0]) {
            exists|i: int| #[trigger] is_named_reason(items@, i, place, text)
        } else {
            exists|i: int| #[trigger] is_unnamed_reason(items@, i, place, text)
        },
        _ => place == sexp_span(input) && text == "expected "@ + "input sorts"@,
    }
}

proof fn lemma_unnamed_reason(
    items: Seq<egglog::ast::Sexp>,
    i: int,
    before: Seq<Seq<char>>,
) -> (at: int)
    requires
        0 <= i <= items.len(),
        forall|k: int| 0 <= k < i ==> is_plain(#[trigger] items[k]),
        positional_sorts(items, i, before) is Err,
    ensures
        ({
            let fault = positional_sorts(items, i, before)->Err_0;
            is_unnamed_reason(items, at, fault.span, fault.text)
        }),
    decreases items.len() - i,
{
    match atom(items[i]) {
        Some(sort) if !starts_colon(sort) => {
            assert(is_plain(items[i]));
            lemma_unnamed_reason(items, i + 1, before.push(sort))
        },
        _ => i,
    }
}

proof fn lemma_named_reason(
    items: Seq<egglog::ast::Sexp>,
    i: int,
    names: Seq<Seq<char>>,
    sorts: Seq<Seq<char>>,
) -> (at: int)
    requires
        0 <= i <= items.len(),
        i % 2 == 0,
        forall|k: int| 0 <= k < i && k % 2 == 0 ==> #[trigger] has_field(items, k),
        forall|name: Seq<char>| #[trigger]
            names.contains(name) ==> exists|k: int| #[trigger]
                has_field(items, k) && 0 <= k < i && k % 2 == 0 && key_name(items[k]) == name,
        named_sorts(items, i, names, sorts) is Err,
    ensures
        ({
            let fault = named_sorts(items, i, names, sorts)->Err_0;
            is_named_reason(items, at, fault.span, fault.text)
        }),
    decreases items.len() - i,
{
    if is_key(items[i]) && i + 1 < items.len() && is_plain(items[i + 1]) && !names.contains(
        key_name(items[i]),
    ) {
        let name = key_name(items[i]);
        let more = names.push(name);
        let sort = text_of(items[i + 1]);
        assert(has_field(items, i));
        assert(atom(items[i + 1]) == Some(sort));
        assert forall|k: int| 0 <= k < i + 2 && k % 2 == 0 implies #[trigger] has_field(items, k) by {
            assert(k < i || k == i);
        }
        assert forall|other: Seq<char>| #[trigger] more.contains(other) implies exists|k: int|
            #[trigger] has_field(items, k) && 0 <= k < i + 2 && k % 2 == 0 && key_name(items[k])
                == other by {
            crate::lists::lemma_push_contains(names, name, other);
            if names.contains(other) {
                let k = choose|k: int| #[trigger]
                    has_field(items, k) && 0 <= k < i && k % 2 == 0 && key_name(items[k]) == other;
                assert(has_field(items, k) && 0 <= k < i + 2);
            } else {
                assert(has_field(items, i) && key_name(items[i]) == other);
            }
        }
        lemma_named_reason(items, i + 2, more, sorts.push(sort))
    } else {
        i
    }
}

/// What is said of a list of fields that is wrong is said of the first place where it is: a
/// place without a name or without a sort, a name among fields without names, a field without
/// a name among those with names, or a name that stands there again.
pub proof fn lemma_wrong_fields_are_told(input: egglog::ast::Sexp, fault: Fault)
    requires
        schema_list(input) == Err::<(Option<Seq<Seq<char>>>, Seq<Seq<char>>), Fault>(fault),
    ensures
        is_field_reason(input, fault.span, fault.text),
{
    if let egglog::ast::Sexp::List(items, _) = input {
        let none = Seq::<Seq<char>>::empty();
        if items@.len() > 0 && is_key(items@[0]) {
            let i = lemma_named_reason(items@, 0, none, none);
            assert(is_named_reason(items@, i, fault.span, fault.text));
        } else {
            let i = lemma_unnamed_reason(items@, 0, none);
            assert(is_unnamed_reason(items@, i, fault.span, fault.text));
        }
    }
}

/// Why the head of a declaration is wrong: this is said of this place.
pub open spec fn is_head_reason(
    tail: Seq<egglog::ast::Sexp>,
    span: egglog::ast::Span,
    usage: Seq<char>,
    expected: Seq<char>,
    place: egglog::ast::Span,
    text: Seq<char>,
) -> bool {
    if tail.len() < 3 {
        place == span && text == usage
    } else if !(tail[0] is Atom) {
        place == sexp_span(tail[0]) && text == "expected "@ + expected
    } else if !lists_fields(tail[1]) {
        is_field_reason(tail[1], place, text)
    } else if !(tail[2] is Atom) {
        place == sexp_span(tail[2]) && text == "expected "@ + "output sort"@
    } else {
        &&& tail.len() > 3
        &&& !is_key(tail[3])
        &&& place == sexp_span(tail[3])
        &&& text == "option key must start with ':'"@
    }
}

proof fn lemma_head_reason(
    tail: Seq<egglog::ast::Sexp>,
    span: egglog::ast::Span,
    usage: Seq<char>,
    expected: Seq<char>,
)
    requires
        signature_of(tail, span, usage, expected) is Err,
    ensures
        ({
            let fault = signature_of(tail, span, usage, expected)->Err_0;
            is_head_reason(tail, span, usage, expected, fault.span, fault.text)
        }),
{
    if tail.len() >= 3 {
        lemma_lists_fields(tail[1]);
        if tail.len() > 3 {
            assert(tail.skip(3)[0] == tail[3]);
        }
        if let Err(fault) = schema_list(tail[1]) {
            lemma_wrong_fields_are_told(tail[1], fault);
        }
    }
}

proof fn lemma_lists_fields(input: egglog::ast::Sexp)
    ensures
        lists_fields(input) <==> schema_list(input) is Ok,
{
    if lists_fields(input) {
        let (names, sorts) = choose|names: Option<Seq<Seq<char>>>, sorts: Seq<Seq<char>>| #[trigger]
            has_fields(input, names, sorts);
        lemma_fields_are_read(input, names, sorts);
    }
    if let Ok((names, sorts)) = schema_list(input) {
        lemma_fields_are_read(input, names, sorts);
        assert(has_fields(input, names, sorts));
    }
}

/// What is said of a relation whose declaration is wrong is said of the first place where it
/// is, and nothing is recorded.
pub proof fn lemma_wrong_relations_are_told(
    tail: Seq<egglog::ast::Sexp>,
    span: egglog::ast::Span,
    error: egglog::ast::ParseError,
    asked: Seq<Event>,
)
    requires
        is_declaration(Declaration::Relation, tail, span, Err(error), asked),
    ensures
        asked.len() == 0,
        if tail.len() != 2 {
            says(error, span, "usage: (relation <name> (<input sort>*))"@)
        } else if !(tail[0] is Atom) {
            says(error, sexp_span(tail[0]), "expected "@ + "relation name"@)
        } else {
            is_field_reason(tail[1], error.0, error.1@)
        },
{
    if tail.len() == 2 {
        if let Err(fault) = schema_list(tail[1]) {
            lemma_wrong_fields_are_told(tail[1], fault);
        }
    }
}

/// The head of a constructor declaration is right, so that only its options can be wrong.
pub open spec fn has_head(tail: Seq<egglog::ast::Sexp>) -> bool {
    &&& tail.len() >= 3
    &&& tail[0] is Atom
    &&& lists_fields(tail[1])
    &&& tail[2] is Atom
    &&& tail.len() == 3 || is_key(tail[3])
}

proof fn lemma_option_fault(
    groups: Seq<(Seq<char>, Seq<egglog::ast::Sexp>)>,
    span: egglog::ast::Span,
    i: int,
    options: ConstructorOptions,
)
    requires
        0 <= i <= groups.len(),
        constructor_options(groups, span, i, options) is Err,
    ensures
        ({
            let fault = constructor_options(groups, span, i, options)->Err_0;
            ||| fault.span == span && fault.text == "could not parse constructor options"@
            ||| exists|g: int|
                {
                    &&& i <= g < groups.len()
                    &&& (#[trigger] groups[g]).0 == ":cost"@
                    &&& groups[g].1.len() == 1
                    &&& fault.span == sexp_span(groups[g].1[0])
                    &&& fault.text == "expected "@ + "cost"@
                        + " to be a nonnegative integer literal"@
                }
        }),
    decreases groups.len() - i,
{
    let (key, values) = groups[i];
    assert(groups[i] == (key, values));
    if key == ":unextractable"@ && values.len() == 0 {
        let next = ConstructorOptions { unextractable: true, ..options };
        lemma_option_fault(groups, span, i + 1, next);
    } else if key == ":internal-hidden"@ && values.len() == 0 {
        let next = ConstructorOptions { hidden: true, ..options };
        lemma_option_fault(groups, span, i + 1, next);
    } else if key == ":internal-let"@ && values.len() == 0 {
        let next = ConstructorOptions { let_binding: true, ..options };
        lemma_option_fault(groups, span, i + 1, next);
    } else if key == ":cost"@ && values.len() == 1 {
        if uint(values[0]) is Some {
            let next = ConstructorOptions {
                cost: uint(values[0]),
                ..options
            };
            lemma_option_fault(groups, span, i + 1, next);
        }
    }
}

/// What is said of a constructor whose declaration is wrong is said of the first place where
/// its head is, or where that is right of its options: of a cost that is no number, or of the
/// declaration. Nothing is recorded.
pub proof fn lemma_wrong_constructors_are_told(
    tail: Seq<egglog::ast::Sexp>,
    span: egglog::ast::Span,
    error: egglog::ast::ParseError,
    asked: Seq<Event>,
)
    requires
        is_declaration(Declaration::Constructor, tail, span, Err(error), asked),
    ensures
        asked.len() == 0,
        if has_head(tail) {
            ||| says(error, span, "could not parse constructor options"@)
            ||| exists|i: int|
                {
                    &&& 3 <= i < tail.len() - 1
                    &&& is_word(#[trigger] tail[i], ":cost"@)
                    &&& says(
                        error,
                        sexp_span(tail[i + 1]),
                        "expected "@ + "cost"@ + " to be a nonnegative integer literal"@,
                    )
                }
        } else {
            is_head_reason(
                tail,
                span,
                "usage: (constructor <name> (<input sort>*) <output sort> <options>*)"@,
                "constructor name"@,
                error.0,
                error.1@,
            )
        },
{
    let usage = "usage: (constructor <name> (<input sort>*) <output sort> <options>*)"@;
    let expected = "constructor name"@;
    if tail.len() >= 3 {
        lemma_lists_fields(tail[1]);
        if tail.len() > 3 {
            assert(tail.skip(3)[0] == tail[3]);
        }
    }
    match signature_of(tail, span, usage, expected) {
        Err(_) => {
            lemma_head_reason(tail, span, usage, expected);
        },
        Ok((head, groups)) => {
            let none = ConstructorOptions {
                cost: None,
                unextractable: false,
                hidden: false,
                let_binding: false,
            };
            lemma_option_fault(groups, span, 0, none);
            let fault = constructor_options(groups, span, 0, none)->Err_0;
            if !(fault.span == span && fault.text == "could not parse constructor options"@) {
                let g = choose|g: int|
                    {
                        &&& 0 <= g < groups.len()
                        &&& (#[trigger] groups[g]).0 == ":cost"@
                        &&& groups[g].1.len() == 1
                        &&& fault.span == sexp_span(groups[g].1[0])
                        &&& fault.text == "expected "@ + "cost"@
                            + " to be a nonnegative integer literal"@
                    };
                let i = lemma_group_place(tail, g);
                assert(is_word(tail[i], ":cost"@));
            }
        },
    }
}

/// The key says how a function merges.
pub open spec fn is_merge_key(key: Seq<char>) -> bool {
    key == ":merge"@ || key == ":no-merge"@
}

/// What the options of a function from group `i` on come to where they are wrong, or where they
/// say nothing of merging.
spec fn is_function_fault(
    groups: Seq<(Seq<char>, Seq<egglog::ast::Sexp>)>,
    span: egglog::ast::Span,
    i: int,
    merged: bool,
    fault: Fault,
) -> bool {
    ||| fault.span == span && fault.text == "could not parse function options"@
    ||| {
        &&& fault.span == span
        &&& fault.text == "conflicting merge options"@
        &&& exists|g: int|
            i <= g < groups.len() && is_merge_key((#[trigger] groups[g]).0) && (merged || exists|
                h: int,
            | i <= h < g && is_merge_key((#[trigger] groups[h]).0))
    }
    ||| exists|g: int|
        {
            &&& i <= g < groups.len()
            &&& (#[trigger] groups[g]).0 == ":internal-term-constructor"@
            &&& groups[g].1.len() == 1
            &&& !(groups[g].1[0] is Atom)
            &&& fault.span == sexp_span(groups[g].1[0])
            &&& fault.text == "expected "@ + "term constructor name"@
        }
}

proof fn lemma_function_fault(
    groups: Seq<(Seq<char>, Seq<egglog::ast::Sexp>)>,
    span: egglog::ast::Span,
    i: int,
    options: FunctionOptions,
)
    requires
        0 <= i <= groups.len(),
    ensures
        match function_options(groups, span, i, options).1 {
            Err(fault) => is_function_fault(groups, span, i, options.merge is Some, fault),
            Ok(all) => all.merge is None ==> options.merge is None && forall|g: int|
                i <= g < groups.len() ==> !is_merge_key((#[trigger] groups[g]).0),
        },
    decreases groups.len() - i,
{
    if i < groups.len() {
        let (key, values) = groups[i];
        assert(groups[i] == (key, values));
        let plain = {
            ||| key == ":internal-hidden"@ && values.len() == 0
            ||| key == ":internal-let"@ && values.len() == 0
            ||| key == ":unextractable"@ && values.len() == 0
            ||| key == ":internal-term-constructor"@ && values.len() == 1 && values[0] is Atom
        };
        let merging = {
            ||| key == ":no-merge"@ && values.len() == 0
            ||| key == ":merge"@ && values.len() == 1
        };
        let next = if key == ":no-merge"@ {
            FunctionOptions { merge: Some(None), ..options }
        } else if key == ":merge"@ {
            FunctionOptions { merge: Some(Some(values[0])), ..options }
        } else if key == ":internal-hidden"@ {
            FunctionOptions { hidden: true, ..options }
        } else if key == ":internal-let"@ {
            FunctionOptions { let_binding: true, ..options }
        } else if key == ":unextractable"@ {
            FunctionOptions { unextractable: true, ..options }
        } else {
            FunctionOptions { term_constructor: atom(values[0]), ..options }
        };
        lemma_option_keys();
        lemma_function_fault(groups, span, i + 1, next);
        if plain {
            assert(function_options(groups, span, i, options).1 == function_options(
                groups,
                span,
                i + 1,
                next,
            ).1);
            assert(!is_merge_key(key));
        } else if merging && options.merge is None {
            assert(function_options(groups, span, i, options).1 == function_options(
                groups,
                span,
                i + 1,
                next,
            ).1);
            assert(is_merge_key(groups[i].0));
        } else if merging {
            assert(is_merge_key(groups[i].0));
        }
        if let Err(fault) = function_options(groups, span, i + 1, next).1 {
            lemma_function_fault_before(groups, span, i, options.merge is Some, next.merge is Some, fault);
        }
    }
}

proof fn lemma_function_fault_before(
    groups: Seq<(Seq<char>, Seq<egglog::ast::Sexp>)>,
    span: egglog::ast::Span,
    i: int,
    merged: bool,
    now: bool,
    fault: Fault,
)
    requires
        0 <= i < groups.len(),
        is_function_fault(groups, span, i + 1, now, fault),
        now ==> merged || is_merge_key(groups[i].0),
    ensures
        is_function_fault(groups, span, i, merged, fault),
{
    if exists|g: int|
        i + 1 <= g < groups.len() && is_merge_key((#[trigger] groups[g]).0) && (now || exists|
            h: int,
        | i + 1 <= h < g && is_merge_key((#[trigger] groups[h]).0)) {
        let g = choose|g: int|
            i + 1 <= g < groups.len() && is_merge_key((#[trigger] groups[g]).0) && (now || exists|
                h: int,
            | i + 1 <= h < g && is_merge_key((#[trigger] groups[h]).0));
        if !merged {
            if now {
                assert(is_merge_key(groups[i].0));
            } else {
                let h = choose|h: int| i + 1 <= h < g && is_merge_key((#[trigger] groups[h]).0);
                assert(is_merge_key(groups[h].0));
            }
        }
        assert(is_merge_key(groups[g].0));
    }
}

proof fn lemma_option_keys()
    ensures
        ":internal-hidden"@ != ":no-merge"@,
        ":internal-hidden"@ != ":merge"@,
        ":internal-let"@ != ":no-merge"@,
        ":internal-let"@ != ":merge"@,
        ":internal-let"@ != ":internal-hidden"@,
        ":unextractable"@ != ":no-merge"@,
        ":unextractable"@ != ":merge"@,
        ":unextractable"@ != ":internal-hidden"@,
        ":unextractable"@ != ":internal-let"@,
        ":internal-term-constructor"@ != ":no-merge"@,
        ":internal-term-constructor"@ != ":merge"@,
        ":internal-term-constructor"@ != ":internal-hidden"@,
        ":internal-term-constructor"@ != ":internal-let"@,
        ":internal-term-constructor"@ != ":unextractable"@,
        ":merge"@ != ":no-merge"@,
{
    reveal_strlit(":merge");
    reveal_strlit(":no-merge");
    reveal_strlit(":internal-hidden");
    reveal_strlit(":internal-let");
    reveal_strlit(":unextractable");
    reveal_strlit(":internal-term-constructor");
    assert(":merge"@.len() == 6);
    assert(":no-merge"@.len() == 9);
    assert(":internal-hidden"@.len() == 16);
    assert(":internal-let"@.len() == 13);
    assert(":unextractable"@.len() == 14);
    assert(":internal-term-constructor"@.len() == 26);
}

/// The word at this position says how a function merges.
pub open spec fn is_merge_word(sexp: egglog::ast::Sexp) -> bool {
    is_word(sexp, ":merge"@) || is_word(sexp, ":no-merge"@)
}

/// What is said of a function whose declaration is wrong is said of the first place where its
/// head is. Where that is right, the error is that of the parser for the expression by which
/// the function merges, or it is said that it merges in two ways or in none, that the name of
/// its term constructor is no word, or that its options are wrong. No call is recorded.
pub proof fn lemma_wrong_functions_are_told(
    tail: Seq<egglog::ast::Sexp>,
    span: egglog::ast::Span,
    error: egglog::ast::ParseError,
    asked: Seq<Event>,
)
    requires
        is_declaration(Declaration::Function, tail, span, Err(error), asked),
    ensures
        asked.len() <= 1,
        forall|k: int| 0 <= k < asked.len() ==> (#[trigger] asked[k]) is Expr,
        if has_head(tail) {
            ||| asked.len() == 1 && (asked[0] matches Event::Expr(_, Err(given)) && given == error)
            ||| says(error, span, "could not parse function options"@)
            ||| {
                &&& says(error, span, "functions are required to specify merge behaviour"@)
                &&& forall|i: int| 3 <= i < tail.len() ==> !is_merge_word(#[trigger] tail[i])
            }
            ||| {
                &&& says(error, span, "conflicting merge options"@)
                &&& exists|i: int, j: int|
                    {
                        &&& 3 <= i < j < tail.len()
                        &&& is_merge_word(#[trigger] tail[i])
                        &&& is_merge_word(#[trigger] tail[j])
                    }
            }
            ||| exists|i: int|
                {
                    &&& 3 <= i < tail.len() - 1
                    &&& is_word(#[trigger] tail[i], ":internal-term-constructor"@)
                    &&& !(tail[i + 1] is Atom)
                    &&& says(
                        error,
                        sexp_span(tail[i + 1]),
                        "expected "@ + "term constructor name"@,
                    )
                }
        } else {
            &&& asked.len() == 0
            &&& is_head_reason(
                tail,
                span,
                "usage: (function <name> (<input sort>*) <output sort> <options>*)"@,
                "function name"@,
                error.0,
                error.1@,
            )
        },
{
    let result = Err::<Vec<egglog::ast::Command>, egglog::ast::ParseError>(error);
    let parsed = choose|parsed: Result<egglog::ast::Expr, egglog::ast::ParseError>| #[trigger]
        is_function_declaration(tail, span, result, parsed, asked);
    let usage = "usage: (function <name> (<input sort>*) <output sort> <options>*)"@;
    let expected = "function name"@;
    if tail.len() >= 3 {
        lemma_lists_fields(tail[1]);
        if tail.len() > 3 {
            assert(tail.skip(3)[0] == tail[3]);
        }
    }
    match signature_of(tail, span, usage, expected) {
        Err(_) => {
            lemma_head_reason(tail, span, usage, expected);
        },
        Ok((head, groups)) => {
            lemma_function_fault(groups, span, 0, no_function_options());
            let (merge, end) = function_options(groups, span, 0, no_function_options());
            if !(merge is Some && parsed is Err) {
                match end {
                    Err(fault) => {
                        lemma_function_fault_place(tail, groups, span, fault);
                    },
                    Ok(options) => {
                        assert forall|i: int| 3 <= i < tail.len() implies !is_merge_word(
                            #[trigger] tail[i],
                        ) by {
                            if is_merge_word(tail[i]) {
                                reveal_strlit(":merge");
                                reveal_strlit(":no-merge");
                                assert(":merge"@[0] == ':');
                                assert(":no-merge"@[0] == ':');
                                let g = lemma_key_is_group(tail, i);
                                assert(is_merge_key(groups[g].0));
                            }
                        }
                    },
                }
            }
        },
    }
}

proof fn lemma_function_fault_place(
    tail: Seq<egglog::ast::Sexp>,
    groups: Seq<(Seq<char>, Seq<egglog::ast::Sexp>)>,
    span: egglog::ast::Span,
    fault: Fault,
)
    requires
        tail.len() >= 3,
        tail.len() > 3 ==> is_key(tail[3]),
        groups == option_groups(tail.skip(3)),
        is_function_fault(groups, span, 0, false, fault),
    ensures
        ({
            ||| fault.span == span && fault.text == "could not parse function options"@
            ||| {
                &&& fault.span == span
                &&& fault.text == "conflicting merge options"@
                &&& exists|i: int, j: int|
                    {
                        &&& 3 <= i < j < tail.len()
                        &&& is_merge_word(#[trigger] tail[i])
                        &&& is_merge_word(#[trigger] tail[j])
                    }
            }
            ||| exists|i: int|
                {
                    &&& 3 <= i < tail.len() - 1
                    &&& is_word(#[trigger] tail[i], ":internal-term-constructor"@)
                    &&& !(tail[i + 1] is Atom)
                    &&& fault.span == sexp_span(tail[i + 1])
                    &&& fault.text == "expected "@ + "term constructor name"@
                }
        }),
{
    if fault.span == span && fault.text == "could not parse function options"@ {
    } else if exists|g: int|
        {
            &&& 0 <= g < groups.len()
            &&& (#[trigger] groups[g]).0 == ":internal-term-constructor"@
            &&& groups[g].1.len() == 1
            &&& !(groups[g].1[0] is Atom)
            &&& fault.span == sexp_span(groups[g].1[0])
            &&& fault.text == "expected "@ + "term constructor name"@
        } {
        let g = choose|g: int|
            {
                &&& 0 <= g < groups.len()
                &&& (#[trigger] groups[g]).0 == ":internal-term-constructor"@
                &&& groups[g].1.len() == 1
                &&& !(groups[g].1[0] is Atom)
                &&& fault.span == sexp_span(groups[g].1[0])
                &&& fault.text == "expected "@ + "term constructor name"@
            };
        let i = lemma_group_place(tail, g);
        assert(is_word(tail[i], ":internal-term-constructor"@));
    } else {
        let g = choose|g: int|
            0 <= g < groups.len() && is_merge_key((#[trigger] groups[g]).0) && exists|h: int|
                0 <= h < g && is_merge_key((#[trigger] groups[h]).0);
        let h = choose|h: int| 0 <= h < g && is_merge_key((#[trigger] groups[h]).0);
        let (i, j) = lemma_groups_in_order(tail, h, g);
        assert(is_merge_word(tail[i]));
        assert(is_merge_word(tail[j]));
    }
}

/// What is said of a datatype whose declaration is wrong: that it has no name, or what is said
/// of the first of its variants that is wrong. The calls of those before it are recorded.
pub proof fn lemma_wrong_datatypes_are_told(
    tail: Seq<egglog::ast::Sexp>,
    span: egglog::ast::Span,
    error: egglog::ast::ParseError,
    asked: Seq<Event>,
)
    requires
        is_declaration(Declaration::Datatype, tail, span, Err(error), asked),
    ensures
        if tail.len() == 0 {
            asked.len() == 0 && says(error, span, "usage: (datatype <name> <variant>*)"@)
        } else if !(tail[0] is Atom) {
            asked.len() == 0 && says(error, sexp_span(tail[0]), "expected "@ + "sort name"@)
        } else {
            &&& asked.len() + 1 < tail.len()
            &&& forall|k: int|
                1 <= k <= asked.len() ==> variant_of(#[trigger] tail[k]) is Ok
            &&& variant_of(tail[asked.len() as int + 1]) matches Err(fault) && says(
                error,
                fault.span,
                fault.text,
            )
        },
{
    if tail.len() > 0 && tail[0] is Atom {
        let sexps = tail.skip(1);
        lemma_variants_from(sexps, 0, Seq::empty());
        let (declared, fault) = variants_from(sexps, 0, Seq::empty());
        assert(asked.len() == declared.len());
        assert(sexps[declared.len() as int] == tail[declared.len() as int + 1]);
        assert forall|k: int| 1 <= k <= asked.len() implies variant_of(
            #[trigger] tail[k],
        ) is Ok by {
            let before = k - 1;
            assert(sexps[before] == tail[k]);
            assert(variant_of(sexps[before]) == Ok::<
                (VariantModel, Option<Seq<Seq<char>>>),
                Fault,
            >(declared[before]));
        }
    }
}

/// Why the words of a variant with named fields are wrong at position `i`: this is said of this
/// place.
pub open spec fn is_variant_reason(
    tail: Seq<egglog::ast::Sexp>,
    span: egglog::ast::Span,
    i: int,
    place: egglog::ast::Span,
    text: Seq<char>,
) -> bool {
    let item = tail[i];
    let next = tail[i + 1];
    let name = key_name(item);
    &&& 0 <= i < tail.len()
    &&& {
        ||| {
            &&& !(item is Atom)
            &&& place == sexp_span(item)
            &&& text == "expected "@ + "argument name or option"@
        }
        ||| {
            &&& is_plain(item)
            &&& place == sexp_span(item)
            &&& text == "expected `:name` or an option but found `"@ + text_of(item)
                + "`; name either all fields or none"@
        }
        ||| {
            &&& is_word(item, ":cost"@)
            &&& i == tail.len() - 1
            &&& place == span
            &&& text == ":cost requires a value"@
        }
        ||| {
            &&& is_word(item, ":cost"@)
            &&& i < tail.len() - 1
            &&& uint(next) is None
            &&& place == sexp_span(next)
            &&& text == "expected "@ + "cost"@ + " to be a nonnegative integer literal"@
        }
        ||| {
            &&& is_key(item)
            &&& i == tail.len() - 1
            &&& place == sexp_span(item)
            &&& text == "argument `"@ + name + "` is missing its sort"@
        }
        ||| {
            &&& is_key(item)
            &&& i < tail.len() - 1
            &&& !(next is Atom)
            &&& place == sexp_span(next)
            &&& text == "expected "@ + "argument sort"@
        }
        ||| {
            &&& is_key(item)
            &&& i < tail.len() - 1
            &&& is_key(next)
            &&& place == sexp_span(next)
            &&& text == "expected a sort for `"@ + name + "` but found `"@ + text_of(next) + "`"@
        }
        ||| {
            &&& has_field(tail, i)
            &&& exists|k: int| 0 <= k < i && is_key(#[trigger] tail[k]) && key_name(tail[k]) == name
            &&& place == sexp_span(item)
            &&& text == "duplicate argument name `"@ + name + "`"@
        }
    }
}

proof fn lemma_variant_reason(
    tail: Seq<egglog::ast::Sexp>,
    span: egglog::ast::Span,
    i: int,
    fields: VariantFields,
) -> (at: int)
    requires
        0 <= i <= tail.len(),
        forall|name: Seq<char>| #[trigger]
            fields.names.contains(name) ==> exists|k: int|
                0 <= k < i && is_key(#[trigger] tail[k]) && key_name(tail[k]) == name,
        variant_fields(tail, span, i, fields) is Err,
    ensures
        ({
            let fault = variant_fields(tail, span, i, fields)->Err_0;
            is_variant_reason(tail, span, at, fault.span, fault.text)
        }),
    decreases tail.len() - i,
{
    if is_word(tail[i], ":unextractable"@) {
        let next = VariantFields { unextractable: true, ..fields };
        lemma_variant_reason(tail, span, i + 1, next)
    } else if is_word(tail[i], ":cost"@) && i + 1 < tail.len() && uint(tail[i + 1]) is Some {
        let next = VariantFields { cost: uint(tail[i + 1]), ..fields };
        lemma_variant_reason(tail, span, i + 2, next)
    } else if !is_word(tail[i], ":cost"@) && is_key(tail[i]) && i + 1 < tail.len() && is_plain(
        tail[i + 1],
    ) && !fields.names.contains(key_name(tail[i])) {
        let name = key_name(tail[i]);
        let sort = text_of(tail[i + 1]);
        let next = VariantFields {
            names: fields.names.push(name),
            types: fields.types.push(sort),
            ..fields
        };
        assert(atom(tail[i + 1]) == Some(sort));
        assert forall|other: Seq<char>| #[trigger] next.names.contains(other) implies exists|k: int|
            0 <= k < i + 2 && is_key(#[trigger] tail[k]) && key_name(tail[k]) == other by {
            crate::lists::lemma_push_contains(fields.names, name, other);
            if fields.names.contains(other) {
                let k = choose|k: int|
                    0 <= k < i && is_key(#[trigger] tail[k]) && key_name(tail[k]) == other;
                assert(is_key(tail[k]));
            } else {
                assert(is_key(tail[i]));
            }
        }
        lemma_variant_reason(tail, span, i + 2, next)
    } else {
        i
    }
}

/// What is said of a variant with named fields that is wrong is said of a place where it is.
pub proof fn lemma_wrong_variants_are_told(
    sexp: egglog::ast::Sexp,
    head: Seq<char>,
    tail: Seq<egglog::ast::Sexp>,
    fault: Fault,
)
    requires
        call_of(sexp) == Some((head, tail)),
        tail.len() > 0,
        is_key(tail[0]),
        !is_word(tail[0], ":cost"@),
        !is_word(tail[0], ":unextractable"@),
        variant_of(sexp) == Err::<(VariantModel, Option<Seq<Seq<char>>>), Fault>(fault),
    ensures
        exists|i: int| #[trigger]
            is_variant_reason(tail, sexp_span(sexp), i, fault.span, fault.text),
{
    let i = lemma_variant_reason(tail, sexp_span(sexp), 0, no_fields());
    assert(is_variant_reason(tail, sexp_span(sexp), i, fault.span, fault.text));
}

} // verus!
