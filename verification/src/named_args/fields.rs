//! The fields of declarations and of variants.

use vstd::prelude::*;
use crate::named_args::call::{optional_texts, register_call};
use crate::named_args::parser::{parse_variant, spells};
use crate::named_args::sexp::{
    atom, call_of, expect_uint, is_fault, is_key, is_keyword, is_variant, items_of, no_uint,
    parse_error, positional_variant, sexp_span, starts_colon, uint, without_first, Fault,
    VariantModel,
};
use crate::text::{same, texts};

verus! {

/// What is wrong at a place.
pub open spec fn fault(sexp: egglog::ast::Sexp, text: Seq<char>) -> Fault {
    Fault { span: sexp_span(sexp), text }
}

/// The name and the sort of the field whose name stands at position `i`, behind
/// the names that were seen.
pub open spec fn named_field(
    items: Seq<egglog::ast::Sexp>,
    i: int,
    seen: Seq<Seq<char>>,
) -> Result<(Seq<char>, Seq<char>), Fault> {
    let name = atom(items[i])->0.skip(1);
    if i + 1 >= items.len() {
        Err(fault(items[i], "argument `"@ + name + "` is missing its sort"@))
    } else {
        match atom(items[i + 1]) {
            None => Err(fault(items[i + 1], "expected "@ + "argument sort"@)),
            Some(sort) => if starts_colon(sort) {
                Err(
                    fault(
                        items[i + 1],
                        "expected a sort for `"@ + name + "` but found `"@ + sort + "`"@,
                    ),
                )
            } else if seen.contains(name) {
                Err(fault(items[i], "duplicate argument name `"@ + name + "`"@))
            } else {
                Ok((name, sort))
            },
        }
    }
}

/// Whether a list has a text.
fn has(strings: &Vec<String>, text: &str) -> (yes: bool)
    ensures
        yes == texts(strings@).contains(text@),
{
    for i in 0..strings.len()
        invariant
            forall|j: int| 0 <= j < i ==> #[trigger] texts(strings@)[j] != text@,
    {
        if same(strings[i].as_str(), text) {
            assert(texts(strings@)[i as int] == text@);
            return true;
        }
    }
    false
}

/// Two texts around a third.
fn around(before: &str, text: &str, after: &str) -> (all: String)
    ensures
        all@ == before@ + text@ + after@,
{
    let mut all = before.to_owned();
    all.append(text);
    all.append(after);
    all
}

/// Reads the name and the sort of a field.
fn read_named_field(items: &[egglog::ast::Sexp], i: usize, seen: &Vec<String>) -> (result: Result<
    (String, String),
    egglog::ast::ParseError,
>)
    requires
        i < items@.len(),
        is_key(items@[i as int]),
    ensures
        match (result, named_field(items@, i as int, texts(seen@))) {
            (Ok((name, sort)), Ok((name_text, sort_text))) => name@ == name_text && sort@
                == sort_text,
            (Err(error), Err(fault)) => is_fault(error, fault),
            _ => false,
        },
{
    let key_span = items[i].span();
    let name = without_first(items[i].expect_atom("argument name")?.as_str());
    if i + 1 >= items.len() {
        return Err(
            parse_error(key_span, around("argument `", name.as_str(), "` is missing its sort").as_str()),
        );
    }
    let sort = match items[i + 1].expect_atom("argument sort") {
        Ok(sort) => sort,
        Err(error) => return Err(error),
    };
    if is_keyword(sort.as_str()) {
        let mut text = around("expected a sort for `", name.as_str(), "` but found `");
        text.append(sort.as_str());
        text.append("`");
        return Err(parse_error(items[i + 1].span(), text.as_str()));
    }
    if has(seen, name.as_str()) {
        return Err(
            parse_error(key_span, around("duplicate argument name `", name.as_str(), "`").as_str()),
        );
    }
    Ok((name, sort))
}

/// The sorts of a list without names, from position `i` on, behind those
/// before.
pub open spec fn positional_sorts(
    items: Seq<egglog::ast::Sexp>,
    i: int,
    before: Seq<Seq<char>>,
) -> Result<Seq<Seq<char>>, Fault>
    decreases items.len() - i,
{
    if i >= items.len() {
        Ok(before)
    } else {
        match atom(items[i]) {
            None => Err(fault(items[i], "expected "@ + "input sort"@)),
            Some(sort) => if starts_colon(sort) {
                Err(
                    fault(
                        items[i],
                        "unexpected named argument `"@ + sort
                            + "`; name either all fields or none"@,
                    ),
                )
            } else {
                positional_sorts(items, i + 1, before.push(sort))
            },
        }
    }
}

/// The names and the sorts of a list with names, from position `i` on, behind
/// those before.
pub open spec fn named_sorts(
    items: Seq<egglog::ast::Sexp>,
    i: int,
    names: Seq<Seq<char>>,
    sorts: Seq<Seq<char>>,
) -> Result<(Seq<Seq<char>>, Seq<Seq<char>>), Fault>
    decreases items.len() - i,
{
    if i >= items.len() {
        Ok((names, sorts))
    } else {
        match atom(items[i]) {
            None => Err(fault(items[i], "expected "@ + "argument name"@)),
            Some(key) => if !starts_colon(key) {
                Err(
                    fault(
                        items[i],
                        "expected `:name` but found `"@ + key
                            + "`; name either all fields or none"@,
                    ),
                )
            } else {
                match named_field(items, i, names) {
                    Ok((name, sort)) => named_sorts(items, i + 2, names.push(name), sorts.push(sort)),
                    Err(fault) => Err(fault),
                }
            },
        }
    }
}

/// The names, if there are any, and the sorts of a list of fields. Either all
/// fields are named or none.
pub open spec fn schema_list(input: egglog::ast::Sexp) -> Result<
    (Option<Seq<Seq<char>>>, Seq<Seq<char>>),
    Fault,
> {
    match items_of(input) {
        None => Err(fault(input, "expected "@ + "input sorts"@)),
        Some(items) => if items.len() > 0 && is_key(items[0]) {
            match named_sorts(items, 0, Seq::empty(), Seq::empty()) {
                Ok((names, sorts)) => Ok((Some(names), sorts)),
                Err(fault) => Err(fault),
            }
        } else {
            match positional_sorts(items, 0, Seq::empty()) {
                Ok(sorts) => Ok((None, sorts)),
                Err(fault) => Err(fault),
            }
        },
    }
}

/// Whether an s-expression is an atom that begins with a colon.
fn is_key_atom(sexp: &egglog::ast::Sexp) -> (yes: bool)
    ensures
        yes == is_key(*sexp),
{
    match sexp {
        egglog::ast::Sexp::Atom(text, _) => is_keyword(text.as_str()),
        _ => false,
    }
}

/// Splits a list of fields into names, if there are any, and sorts.
pub fn parse_schema_list(input: &egglog::ast::Sexp) -> (result: Result<
    (Option<Vec<String>>, Vec<String>),
    egglog::ast::ParseError,
>)
    ensures
        match (result, schema_list(*input)) {
            (Ok((names, sorts)), Ok((name_texts, sort_texts))) => {
                &&& optional_texts(names) == name_texts
                &&& texts(sorts@) == sort_texts
            },
            (Err(error), Err(fault)) => is_fault(error, fault),
            _ => false,
        },
{
    let items = match input.expect_list("input sorts") {
        Ok(items) => items,
        Err(error) => return Err(error),
    };
    let named = items.len() > 0 && is_key_atom(&items[0]);
    let mut names: Vec<String> = Vec::new();
    let mut sorts: Vec<String> = Vec::new();
    assert(texts(names@) =~= Seq::empty());
    assert(texts(sorts@) =~= Seq::empty());
    let mut i: usize = 0;
    if !named {
        while i < items.len()
            invariant
                !named,
                items_of(*input) == Some(items@),
                named == (items@.len() > 0 && is_key(items@[0])),
                i <= items@.len(),
                positional_sorts(items@, 0, Seq::empty()) == positional_sorts(
                    items@,
                    i as int,
                    texts(sorts@),
                ),
            decreases items@.len() - i,
        {
            let sort = match items[i].expect_atom("input sort") {
                Ok(sort) => sort,
                Err(error) => return Err(error),
            };
            if is_keyword(sort.as_str()) {
                return Err(
                    parse_error(
                        items[i].span(),
                        around(
                            "unexpected named argument `",
                            sort.as_str(),
                            "`; name either all fields or none",
                        ).as_str(),
                    ),
                );
            }
            let ghost before = sorts@;
            sorts.push(sort);
            assert(texts(sorts@) =~= texts(before).push(sort@));
            i = i + 1;
        }
        return Ok((None, sorts));
    }
    while i < items.len()
        invariant
            named,
            items_of(*input) == Some(items@),
            named == (items@.len() > 0 && is_key(items@[0])),
            named_sorts(items@, 0, Seq::empty(), Seq::empty()) == named_sorts(
                items@,
                i as int,
                texts(names@),
                texts(sorts@),
            ),
        decreases items@.len() - i,
    {
        let key = match items[i].expect_atom("argument name") {
            Ok(key) => key,
            Err(error) => return Err(error),
        };
        if !is_keyword(key.as_str()) {
            return Err(
                parse_error(
                    items[i].span(),
                    around(
                        "expected `:name` but found `",
                        key.as_str(),
                        "`; name either all fields or none",
                    ).as_str(),
                ),
            );
        }
        let (name, sort) = match read_named_field(items, i, &names) {
            Ok(field) => field,
            Err(error) => return Err(error),
        };
        let ghost before = (names@, sorts@);
        names.push(name);
        sorts.push(sort);
        assert(texts(names@) =~= texts(before.0).push(name@));
        assert(texts(sorts@) =~= texts(before.1).push(sort@));
        i = i + 2;
    }
    Ok((Some(names), sorts))
}

/// The fields and options of a variant.
pub struct VariantFields {
    /// The names of the fields.
    pub names: Seq<Seq<char>>,
    /// The sorts of the fields.
    pub types: Seq<Seq<char>>,
    /// The cost.
    pub cost: Option<u64>,
    /// Whether the variant is kept out of extraction.
    pub unextractable: bool,
}

/// No fields and no options.
pub open spec fn no_fields() -> VariantFields {
    VariantFields {
        names: Seq::empty(),
        types: Seq::empty(),
        cost: None,
        unextractable: false,
    }
}

/// The fields and options of a variant with named fields, from position `i`
/// on, added to those before.
pub open spec fn variant_fields(
    tail: Seq<egglog::ast::Sexp>,
    span: egglog::ast::Span,
    i: int,
    fields: VariantFields,
) -> Result<VariantFields, Fault>
    decreases tail.len() - i,
{
    if i >= tail.len() {
        Ok(fields)
    } else {
        match atom(tail[i]) {
            None => Err(fault(tail[i], "expected "@ + "argument name or option"@)),
            Some(key) => if key == ":unextractable"@ {
                variant_fields(tail, span, i + 1, VariantFields { unextractable: true, ..fields })
            } else if key == ":cost"@ {
                if i + 1 >= tail.len() {
                    Err(Fault { span, text: ":cost requires a value"@ })
                } else if uint(tail[i + 1]) is None {
                    Err(no_uint(tail[i + 1]))
                } else {
                    variant_fields(
                        tail,
                        span,
                        i + 2,
                        VariantFields { cost: uint(tail[i + 1]), ..fields },
                    )
                }
            } else if starts_colon(key) {
                match named_field(tail, i, fields.names) {
                    Ok((name, sort)) => variant_fields(
                        tail,
                        span,
                        i + 2,
                        VariantFields {
                            names: fields.names.push(name),
                            types: fields.types.push(sort),
                            ..fields
                        },
                    ),
                    Err(fault) => Err(fault),
                }
            } else {
                Err(
                    fault(
                        tail[i],
                        "expected `:name` or an option but found `"@ + key
                            + "`; name either all fields or none"@,
                    ),
                )
            },
        }
    }
}

/// The variant begins with a named field. The words of the options are never
/// names.
pub open spec fn has_named_fields(tail: Seq<egglog::ast::Sexp>) -> bool {
    &&& tail.len() > 0
    &&& is_key(tail[0])
    &&& atom(tail[0]) != Some(":cost"@)
    &&& atom(tail[0]) != Some(":unextractable"@)
}

/// What a variant is, with the names of its fields if they are named.
pub open spec fn variant_of(sexp: egglog::ast::Sexp) -> Result<
    (VariantModel, Option<Seq<Seq<char>>>),
    Fault,
> {
    match call_of(sexp) {
        Some((head, tail)) if has_named_fields(tail) => match variant_fields(
            tail,
            sexp_span(sexp),
            0,
            no_fields(),
        ) {
            Ok(fields) => Ok(
                (
                    VariantModel {
                        span: sexp_span(sexp),
                        name: head,
                        types: fields.types,
                        cost: fields.cost,
                        unextractable: fields.unextractable,
                    },
                    Some(fields.names),
                ),
            ),
            Err(fault) => Err(fault),
        },
        _ => match positional_variant(sexp) {
            Ok(model) => Ok((model, None)),
            Err(fault) => Err(fault),
        },
    }
}

/// Whether an s-expression is an atom with this text.
fn is_word(sexp: &egglog::ast::Sexp, word: &str) -> (yes: bool)
    ensures
        yes == (atom(*sexp) == Some(word@)),
{
    match sexp {
        egglog::ast::Sexp::Atom(text, _) => same(text.as_str(), word),
        _ => false,
    }
}

/// The fields and options of a variant, in executable form.
struct ReadFields {
    names: Vec<String>,
    types: Vec<String>,
    cost: Option<u64>,
    unextractable: bool,
}

impl ReadFields {
    spec fn model(self) -> VariantFields {
        VariantFields {
            names: texts(self.names@),
            types: texts(self.types@),
            cost: self.cost,
            unextractable: self.unextractable,
        }
    }
}

/// Reads the fields and options of a variant with named fields.
fn read_variant_fields(tail: &[egglog::ast::Sexp], span: &egglog::ast::Span) -> (result: Result<
    ReadFields,
    egglog::ast::ParseError,
>)
    ensures
        match (result, variant_fields(tail@, *span, 0, no_fields())) {
            (Ok(read), Ok(fields)) => read.model() == fields,
            (Err(error), Err(fault)) => is_fault(error, fault),
            _ => false,
        },
{
    let mut read = ReadFields {
        names: Vec::new(),
        types: Vec::new(),
        cost: None,
        unextractable: false,
    };
    assert(texts(read.names@) =~= Seq::empty());
    assert(texts(read.types@) =~= Seq::empty());
    let mut i: usize = 0;
    while i < tail.len()
        invariant
            variant_fields(tail@, *span, 0, no_fields()) == variant_fields(
                tail@,
                *span,
                i as int,
                read.model(),
            ),
        decreases tail@.len() - i,
    {
        let key = match tail[i].expect_atom("argument name or option") {
            Ok(key) => key,
            Err(error) => return Err(error),
        };
        if same(key.as_str(), ":unextractable") {
            read.unextractable = true;
            i = i + 1;
        } else if same(key.as_str(), ":cost") {
            if i + 1 >= tail.len() {
                return Err(parse_error(span.clone(), ":cost requires a value"));
            }
            match expect_uint(&tail[i + 1], "cost") {
                Ok(number) => read.cost = Some(number),
                Err(error) => return Err(error),
            }
            i = i + 2;
        } else if is_keyword(key.as_str()) {
            let (name, sort) = match read_named_field(tail, i, &read.names) {
                Ok(field) => field,
                Err(error) => return Err(error),
            };
            let ghost before = (read.names@, read.types@);
            read.names.push(name);
            read.types.push(sort);
            assert(texts(read.names@) =~= texts(before.0).push(name@));
            assert(texts(read.types@) =~= texts(before.1).push(sort@));
            i = i + 2;
        } else {
            return Err(
                parse_error(
                    tail[i].span(),
                    around(
                        "expected `:name` or an option but found `",
                        key.as_str(),
                        "`; name either all fields or none",
                    ).as_str(),
                ),
            );
        }
    }
    Ok(read)
}

/// Parses a variant and records how its calls are spelled.
pub fn process_variant(parser: &mut egglog::ast::Parser, sexp: &egglog::ast::Sexp) -> (result:
    Result<egglog::ast::Variant, egglog::ast::ParseError>)
    ensures
        match (result, variant_of(*sexp)) {
            (Ok(variant), Ok((model, names))) => {
                &&& is_variant(variant, model)
                &&& spells(*old(parser), model.name, names, *final(parser))
            },
            (Err(error), Err(fault)) => {
                &&& is_fault(error, fault)
                &&& *final(parser) == *old(parser)
            },
            _ => false,
        },
{
    let (head, tail, span) = match sexp.expect_call("datatype variant") {
        Ok(call) => call,
        Err(error) => return Err(error),
    };
    let named = tail.len() > 0 && is_key_atom(&tail[0]) && !is_word(&tail[0], ":cost") && !is_word(
        &tail[0],
        ":unextractable",
    );
    if !named {
        let variant = match parse_variant(parser, sexp) {
            Ok(variant) => variant,
            Err(error) => return Err(error),
        };
        register_call(parser, variant.name.as_str(), None);
        return Ok(variant);
    }
    let read = match read_variant_fields(tail, &span) {
        Ok(read) => read,
        Err(error) => return Err(error),
    };
    register_call(parser, head.as_str(), Some(read.names));
    Ok(
        egglog::ast::Variant {
            span,
            name: head,
            types: read.types,
            cost: read.cost,
            unextractable: read.unextractable,
        },
    )
}

} // verus!
