//! The parser: builds the abstract syntax tree from the token sequence,
//! recursively re-parsing the inner text of nested groups with all error
//! offsets re-based onto the original input.
//!
//! The whole behaviour is captured by [`spec_parse`]: a left-to-right walk
//! over the tokens of the input, dispatching on one token of lookahead plus
//! trailing-character inspection, exactly as the grammar's four statement
//! forms demand.

use vstd::prelude::*;

use crate::ast::{
    Entry, EntryModel, Object, ObjectModel, Property, PropertyModel, PropertyValue,
    PropertyValueModel, Requirement, RequirementModel, RhaiEvent, RhaiEventModel, Root, RootModel,
    Tree, TreeModel, entry_model, object_model, requirement_of, requirement_model, root_model,
    tree_model, entries_model, lemma_entries_model, lemma_entries_model_push, requirements_model,
    lemma_requirements_model_push, opt_string_model,
};
use crate::parse_error::{ParseError, ParseErrorModel, offset_msg, build_offset_msg};
use crate::token::{
    Token, TokenModel, token_model, tokens_model, lemma_tokens_model, tokens_wf,
    lemma_tokens_wf_index, lemma_tokens_wf_count,
};
use crate::tokenize_error::TokenizeErrorModel;
use crate::tokenizer::{Tokenizer, spec_tokenize, lemma_spec_tokenize_wf};

verus! {

/// The tokens of `t`; the empty sequence when tokenizing fails.
pub open spec fn toks_of(t: Seq<char>) -> Seq<TokenModel> {
    match spec_tokenize(t) {
        Ok(toks) => toks,
        Err(_) => Seq::empty(),
    }
}

/// Whether `tm` is a bareword token whose text ends in `c`.
pub open spec fn other_ending_in(tm: TokenModel, c: char) -> bool {
    match tm {
        TokenModel::Other { value, .. } => value.len() > 0 && value[value.len() - 1] == c,
        _ => false,
    }
}

/// The first index at or after `j` whose token is a bareword ending in the
/// statement terminator `;`.
pub open spec fn find_terminator(toks: Seq<TokenModel>, j: int) -> Option<int>
    decreases toks.len() - j,
{
    if j < 0 || j >= toks.len() {
        None
    } else if other_ending_in(toks[j], ';') {
        Some(j)
    } else {
        find_terminator(toks, j + 1)
    }
}

pub proof fn lemma_find_terminator_bounds(toks: Seq<TokenModel>, j: int)
    ensures
        find_terminator(toks, j) matches Some(j2) ==> j <= j2 < toks.len() && other_ending_in(
            toks[j2],
            ';',
        ),
    decreases toks.len() - j,
{
    if 0 <= j < toks.len() && !other_ending_in(toks[j], ';') {
        lemma_find_terminator_bounds(toks, j + 1);
    }
}

/// What parsing a whole text yields, with event bindings enabled or not and
/// handler identifiers drawn from `next_id` on: the document's root and the
/// next unused handler identifier, or the first error in document order.
pub open spec fn spec_parse(t: Seq<char>, events: bool, next_id: int) -> Result<
    (RootModel, int),
    ParseErrorModel,
>
    decreases t.len(), 1int, 0int, 0int,
{
    match spec_tokenize(t) {
        Err(e) => Err(ParseErrorModel::TokenizeError(e)),
        Ok(_) => parse_from(t, 0, Seq::empty(), Seq::empty(), events, next_id),
    }
}

/// One step of the parser's walk: dispatches on token `i` of `t`'s token
/// sequence, with the requirements and children gathered so far.
#[verifier::opaque]
pub open spec fn parse_from(
    t: Seq<char>,
    i: int,
    reqs: Seq<RequirementModel>,
    children: Seq<EntryModel>,
    events: bool,
    next_id: int,
) -> Result<(RootModel, int), ParseErrorModel>
    decreases t.len(), 0int, toks_of(t).len() - i, 1int,
    via parse_from_dec
{
    let toks = toks_of(t);
    if i < 0 || i >= toks.len() {
        Ok((RootModel { requirements: reqs, children }, next_id))
    } else {
        match toks[i] {
            TokenModel::Other { value: class, begin, .. } => {
                if class == "using"@ {
                    // requirement declaration: `using <lib> <version>`
                    if i + 2 < toks.len() && toks[i + 1] is Other && toks[i + 2] is Other {
                        match (toks[i + 1], toks[i + 2]) {
                            (
                                TokenModel::Other { value: lib, .. },
                                TokenModel::Other { value: version, .. },
                            ) => parse_from(
                                t,
                                i + 3,
                                reqs.push(requirement_of(lib, version)),
                                children,
                                events,
                                next_id,
                            ),
                            _ => Err(ParseErrorModel::IncorrectSyntax {
                                message: offset_msg("Incorrect syntax at offset "@, begin),
                                offset: begin,
                            }),
                        }
                    } else {
                        Err(ParseErrorModel::IncorrectUseStatement {
                            message: offset_msg("Incorrect use statement at offset "@, begin),
                            offset: begin,
                        })
                    }
                } else if class.len() > 0 && class[class.len() - 1] == ':' {
                    // property assignment: `<name>: <value>;`
                    if i + 1 < toks.len() {
                        match find_terminator(toks, i + 1) {
                            None => Err(ParseErrorModel::IncorrectPropertyDefinition {
                                message: offset_msg(
                                    "Property value must be ended by semicolon, occured at offset "@,
                                    begin,
                                ),
                                offset: begin,
                            }),
                            Some(j) => {
                                if j - i == 1 {
                                    match toks[i + 1] {
                                        TokenModel::Other { value: v, .. } => parse_from(
                                            t,
                                            j + 1,
                                            reqs,
                                            children.push(
                                                EntryModel::Property(
                                                    PropertyModel {
                                                        name: class.subrange(0, class.len() - 1),
                                                        value: PropertyValueModel::Text(
                                                            v.subrange(0, v.len() - 1),
                                                        ),
                                                    },
                                                ),
                                            ),
                                            events,
                                            next_id,
                                        ),
                                        _ => Err(ParseErrorModel::IncorrectPropertyDefinition {
                                            message: offset_msg(
                                                "Incorrect property definition at offset "@,
                                                begin,
                                            ),
                                            offset: begin,
                                        }),
                                    }
                                } else if j - i == 2 {
                                    match toks[i + 1] {
                                        TokenModel::Text { value: v, .. } => parse_from(
                                            t,
                                            j + 1,
                                            reqs,
                                            children.push(
                                                EntryModel::Property(
                                                    PropertyModel {
                                                        name: class.subrange(0, class.len() - 1),
                                                        value: PropertyValueModel::Text(v),
                                                    },
                                                ),
                                            ),
                                            events,
                                            next_id,
                                        ),
                                        TokenModel::Other { value: v, .. } => parse_from(
                                            t,
                                            j + 1,
                                            reqs,
                                            children.push(
                                                EntryModel::Property(
                                                    PropertyModel {
                                                        name: class.subrange(0, class.len() - 1),
                                                        value: PropertyValueModel::Text(v),
                                                    },
                                                ),
                                            ),
                                            events,
                                            next_id,
                                        ),
                                        _ => Err(ParseErrorModel::IncorrectPropertyDefinition {
                                            message: offset_msg(
                                                "Incorrect property definition at offset "@,
                                                begin,
                                            ),
                                            offset: begin,
                                        }),
                                    }
                                } else {
                                    // the value spans several tokens: it must
                                    // re-parse to exactly one object
                                    let sub = t.subrange(toks[i + 1].begin(), toks[j].end());
                                    match spec_parse(sub, events, next_id) {
                                        Err(e) => Err(e.shifted(toks[i + 1].begin())),
                                        Ok((inner, nid2)) => {
                                            if inner.children.len() != 1 {
                                                Err(
                                                    ParseErrorModel::IncorrectPropertyDefinition {
                                                        message: offset_msg(
                                                            "Property value must be a single object, occured at offset "@,
                                                            begin,
                                                        ),
                                                        offset: begin,
                                                    },
                                                )
                                            } else {
                                                match inner.children[0] {
                                                    EntryModel::Object(o) => parse_from(
                                                        t,
                                                        j + 1,
                                                        reqs,
                                                        children.push(
                                                            EntryModel::Property(
                                                                PropertyModel {
                                                                    name: class.subrange(
                                                                        0,
                                                                        class.len() - 1,
                                                                    ),
                                                                    value:
                                                                        PropertyValueModel::Entry(o),
                                                                },
                                                            ),
                                                        ),
                                                        events,
                                                        nid2,
                                                    ),
                                                    _ => Err(
                                                        ParseErrorModel::IncorrectPropertyDefinition {
                                                            message: offset_msg(
                                                                "Property value must be an object, occured at offset "@,
                                                                begin,
                                                            ),
                                                            offset: begin,
                                                        },
                                                    ),
                                                }
                                            }
                                        },
                                    }
                                }
                            },
                        }
                    } else {
                        Err(ParseErrorModel::IncorrectPropertyDefinition {
                            message: offset_msg(
                                "Incorrect property definition at offset "@,
                                begin,
                            ),
                            offset: begin,
                        })
                    }
                } else if i + 1 < toks.len() && other_is(toks[i + 1], "=>"@) {
                    // event binding: `<trigger> => { <script> }`
                    if i + 2 < toks.len() {
                        match toks[i + 2] {
                            TokenModel::CurlyBrackets { begin: gb, end: ge, .. } => {
                                if events {
                                    parse_from(
                                        t,
                                        i + 3,
                                        reqs,
                                        children.push(
                                            EntryModel::RhaiEvent(
                                                RhaiEventModel {
                                                    name: class,
                                                    code: t.subrange(gb + 1, ge),
                                                    event_id: next_id,
                                                },
                                            ),
                                        ),
                                        events,
                                        next_id + 1,
                                    )
                                } else {
                                    Err(ParseErrorModel::IncorrectEventDefinition {
                                        message: offset_msg(
                                            "Rhai feature is not enabled, occured at offset "@,
                                            begin,
                                        ),
                                        offset: begin,
                                    })
                                }
                            },
                            _ => Err(ParseErrorModel::IncorrectEventDefinition {
                                message: offset_msg("Undefined event value at offset "@, begin),
                                offset: begin,
                            }),
                        }
                    } else {
                        Err(ParseErrorModel::IncorrectEventDefinition {
                            message: offset_msg(
                                "Incorrect event definition at offset "@,
                                begin,
                            ),
                            offset: begin,
                        })
                    }
                } else {
                    // object definition: `<Class> [<id>] { <body> }`
                    if i + 1 >= toks.len() {
                        Err(ParseErrorModel::IncorrectObjectDefinition {
                            message: offset_msg(
                                "Incorrect object definition at offset "@,
                                begin,
                            ),
                            offset: begin,
                        })
                    } else {
                        match toks[i + 1] {
                            TokenModel::Other { value: nm, .. } => parse_object_at(
                                t,
                                i + 1,
                                class,
                                Some(nm),
                                reqs,
                                children,
                                events,
                                next_id,
                            ),
                            _ => parse_object_at(
                                t,
                                i,
                                class,
                                None,
                                reqs,
                                children,
                                events,
                                next_id,
                            ),
                        }
                    }
                }
            },
            tk => Err(ParseErrorModel::IncorrectSyntax {
                message: offset_msg("Incorrect syntax at offset "@, tk.begin()),
                offset: tk.begin(),
            }),
        }
    }
}

/// Whether `tm` is a bareword token whose text equals `v`.
pub open spec fn other_is(tm: TokenModel, v: Seq<char>) -> bool {
    match tm {
        TokenModel::Other { value, .. } => value == v,
        _ => false,
    }
}

/// The tail of an object definition: token `i2` names it (class or id),
/// token `i2 + 1` must be its bracket group, whose inner text re-parses to
/// the object's children.
#[verifier::opaque]
pub open spec fn parse_object_at(
    t: Seq<char>,
    i2: int,
    class: Seq<char>,
    name: Option<Seq<char>>,
    reqs: Seq<RequirementModel>,
    children: Seq<EntryModel>,
    events: bool,
    next_id: int,
) -> Result<(RootModel, int), ParseErrorModel>
    decreases t.len(), 0int, toks_of(t).len() - i2, 0int,
    via parse_object_at_dec
{
    let toks = toks_of(t);
    if i2 < 0 || i2 >= toks.len() {
        Ok((RootModel { requirements: reqs, children }, next_id))
    } else if i2 + 1 < toks.len() {
        let bt = toks[i2 + 1];
        if bt.end() - bt.begin() > 0 {
            match spec_parse(t.subrange(bt.begin() + 1, bt.end()), events, next_id) {
                Ok((inner, nid2)) => parse_from(
                    t,
                    i2 + 2,
                    reqs,
                    children.push(
                        EntryModel::Object(ObjectModel { class, name, children: inner.children }),
                    ),
                    events,
                    nid2,
                ),
                Err(e) => Err(e.shifted(bt.begin() + 1)),
            }
        } else {
            parse_from(
                t,
                i2 + 2,
                reqs,
                children.push(
                    EntryModel::Object(ObjectModel { class, name, children: Seq::empty() }),
                ),
                events,
                next_id,
            )
        }
    } else {
        Err(ParseErrorModel::IncorrectObjectDefinition {
            message: offset_msg("Incorrect object definition at offset "@, toks[i2].begin()),
            offset: toks[i2].begin(),
        })
    }
}

#[via_fn]
proof fn parse_from_dec(
    t: Seq<char>,
    i: int,
    reqs: Seq<RequirementModel>,
    children: Seq<EntryModel>,
    events: bool,
    next_id: int,
) {
    let toks = toks_of(t);
    lemma_spec_tokenize_wf(t);
    if 0 <= i < toks.len() {
        lemma_tokens_wf_index(toks, 0, t.len() as int);
        lemma_tokens_wf_count(toks, 0, t.len() as int);
        lemma_find_terminator_bounds(toks, i + 1);
        if let Some(j) = find_terminator(toks, i + 1) {
            if j - i > 2 {
                assert(toks[i + 1].begin() >= i + 1);
                assert(toks[i + 1].begin() <= toks[i + 1].end());
                assert(toks[i + 1].end() < toks[j].begin());
                assert(toks[j].begin() <= toks[j].end());
                assert(toks[j].end() < t.len());
            }
        }
    }
}

#[via_fn]
proof fn parse_object_at_dec(
    t: Seq<char>,
    i2: int,
    class: Seq<char>,
    name: Option<Seq<char>>,
    reqs: Seq<RequirementModel>,
    children: Seq<EntryModel>,
    events: bool,
    next_id: int,
) {
    let toks = toks_of(t);
    lemma_spec_tokenize_wf(t);
    if 0 <= i2 && i2 + 1 < toks.len() {
        lemma_tokens_wf_index(toks, 0, t.len() as int);
        assert(crate::token::token_wf(toks[i2 + 1], 0, t.len() as int));
    }
}

/// The text position the parser has reached at token `i`: that token's
/// start, or the end of the input once the tokens are exhausted.
pub open spec fn pos_of(t: Seq<char>, i: int) -> int {
    let toks = toks_of(t);
    if 0 <= i < toks.len() {
        toks[i].begin()
    } else {
        t.len() as int
    }
}

/// Whole-input bounds for the parser: every handler identifier it hands
/// out advances the counter by at most the input's length, and every error
/// it returns carries offsets within the input's bounds.
pub proof fn lemma_spec_parse_metrics(t: Seq<char>, events: bool, next_id: int)
    ensures
        spec_parse(t, events, next_id) matches Ok(p) ==> next_id <= p.1 <= next_id + t.len(),
        spec_parse(t, events, next_id) matches Err(e) ==> e.in_range(t.len() as int),
        !events ==> (spec_parse(t, events, next_id) matches Ok(p) ==> p.1 == next_id),
    decreases t.len(), 1int, 0int, 0int,
{
    reveal(parse_from);
    reveal(parse_object_at);
    match spec_tokenize(t) {
        Err(e) => {
            lemma_spec_tokenize_wf(t);
        },
        Ok(toks) => {
            lemma_spec_tokenize_wf(t);
            lemma_tokens_wf_count(toks, 0, t.len() as int);
            lemma_parse_from_metrics(t, 0, Seq::empty(), Seq::empty(), events, next_id);
        },
    }
}

proof fn lemma_parse_from_metrics(
    t: Seq<char>,
    i: int,
    reqs: Seq<RequirementModel>,
    children: Seq<EntryModel>,
    events: bool,
    next_id: int,
)
    requires
        0 <= i,
    ensures
        parse_from(t, i, reqs, children, events, next_id) matches Ok(p) ==> next_id <= p.1
            <= next_id + (t.len() - pos_of(t, i)) && pos_of(t, i) <= t.len(),
        parse_from(t, i, reqs, children, events, next_id) matches Err(e) ==> e.in_range(
            t.len() as int,
        ),
        !events ==> (parse_from(t, i, reqs, children, events, next_id) matches Ok(p) ==> p.1
            == next_id),
    decreases t.len(), 0int, toks_of(t).len() - i, 1int,
{
    reveal(parse_from);
    reveal(parse_object_at);
    let toks = toks_of(t);
    lemma_spec_tokenize_wf(t);
    if i < toks.len() {
        lemma_tokens_wf_index(toks, 0, t.len() as int);
        lemma_tokens_wf_count(toks, 0, t.len() as int);
        match toks[i] {
            TokenModel::Other { value: class, begin, .. } => {
                if class == "using"@ {
                    if i + 2 < toks.len() && toks[i + 1] is Other && toks[i + 2] is Other {
                        lemma_parse_from_metrics(
                            t,
                            i + 3,
                            reqs.push(
                                requirement_of(
                                    match toks[i + 1] {
                                        TokenModel::Other { value: lib, .. } => lib,
                                        _ => Seq::empty(),
                                    },
                                    match toks[i + 2] {
                                        TokenModel::Other { value: version, .. } => version,
                                        _ => Seq::empty(),
                                    },
                                ),
                            ),
                            children,
                            events,
                            next_id,
                        );
                    }
                } else if class.len() > 0 && class[class.len() - 1] == ':' {
                    if i + 1 < toks.len() {
                        lemma_find_terminator_bounds(toks, i + 1);
                        match find_terminator(toks, i + 1) {
                            None => {},
                            Some(j) => {
                                let stripped = class.subrange(0, class.len() - 1);
                                if j - i == 1 {
                                    match toks[i + 1] {
                                        TokenModel::Other { value: v, .. } => {
                                            lemma_parse_from_metrics(
                                                t,
                                                j + 1,
                                                reqs,
                                                children.push(
                                                    EntryModel::Property(
                                                        PropertyModel {
                                                            name: stripped,
                                                            value: PropertyValueModel::Text(
                                                                v.subrange(0, v.len() - 1),
                                                            ),
                                                        },
                                                    ),
                                                ),
                                                events,
                                                next_id,
                                            );
                                        },
                                        _ => {},
                                    }
                                } else if j - i == 2 {
                                    match toks[i + 1] {
                                        TokenModel::Text { value: v, .. } => {
                                            lemma_parse_from_metrics(
                                                t,
                                                j + 1,
                                                reqs,
                                                children.push(
                                                    EntryModel::Property(
                                                        PropertyModel {
                                                            name: stripped,
                                                            value: PropertyValueModel::Text(v),
                                                        },
                                                    ),
                                                ),
                                                events,
                                                next_id,
                                            );
                                        },
                                        TokenModel::Other { value: v, .. } => {
                                            lemma_parse_from_metrics(
                                                t,
                                                j + 1,
                                                reqs,
                                                children.push(
                                                    EntryModel::Property(
                                                        PropertyModel {
                                                            name: stripped,
                                                            value: PropertyValueModel::Text(v),
                                                        },
                                                    ),
                                                ),
                                                events,
                                                next_id,
                                            );
                                        },
                                        _ => {},
                                    }
                                } else {
                                    let sub = t.subrange(toks[i + 1].begin(), toks[j].end());
                                    assert(toks[i + 1].end() < toks[j].begin());
                                    lemma_spec_parse_metrics(sub, events, next_id);
                                    match spec_parse(sub, events, next_id) {
                                        Err(e) => {
                                            assert(e.in_range(sub.len() as int));
                                        },
                                        Ok((inner, nid2)) => {
                                            if inner.children.len() == 1 {
                                                match inner.children[0] {
                                                    EntryModel::Object(o) => {
                                                        lemma_parse_from_metrics(
                                                            t,
                                                            j + 1,
                                                            reqs,
                                                            children.push(
                                                                EntryModel::Property(
                                                                    PropertyModel {
                                                                        name: stripped,
                                                                        value:
                                                                            PropertyValueModel::Entry(
                                                                            o,
                                                                        ),
                                                                    },
                                                                ),
                                                            ),
                                                            events,
                                                            nid2,
                                                        );
                                                    },
                                                    _ => {},
                                                }
                                            }
                                        },
                                    }
                                }
                            },
                        }
                    }
                } else if i + 1 < toks.len() && other_is(toks[i + 1], "=>"@) {
                    if i + 2 < toks.len() {
                        match toks[i + 2] {
                            TokenModel::CurlyBrackets { begin: gb, end: ge, .. } => {
                                if events {
                                    lemma_parse_from_metrics(
                                        t,
                                        i + 3,
                                        reqs,
                                        children.push(
                                            EntryModel::RhaiEvent(
                                                RhaiEventModel {
                                                    name: class,
                                                    code: t.subrange(gb + 1, ge),
                                                    event_id: next_id,
                                                },
                                            ),
                                        ),
                                        events,
                                        next_id + 1,
                                    );
                                }
                            },
                            _ => {},
                        }
                    }
                } else {
                    if i + 1 < toks.len() {
                        match toks[i + 1] {
                            TokenModel::Other { value: nm, .. } => {
                                lemma_parse_object_at_metrics(
                                    t,
                                    i + 1,
                                    class,
                                    Some(nm),
                                    reqs,
                                    children,
                                    events,
                                    next_id,
                                );
                            },
                            _ => {
                                lemma_parse_object_at_metrics(
                                    t,
                                    i,
                                    class,
                                    None,
                                    reqs,
                                    children,
                                    events,
                                    next_id,
                                );
                            },
                        }
                    }
                }
            },
            _ => {},
        }
    }
}

proof fn lemma_parse_object_at_metrics(
    t: Seq<char>,
    i2: int,
    class: Seq<char>,
    name: Option<Seq<char>>,
    reqs: Seq<RequirementModel>,
    children: Seq<EntryModel>,
    events: bool,
    next_id: int,
)
    requires
        0 <= i2,
    ensures
        parse_object_at(t, i2, class, name, reqs, children, events, next_id) matches Ok(p)
            ==> next_id <= p.1 <= next_id + (t.len() - pos_of(t, i2)) && pos_of(t, i2) <= t.len(),
        parse_object_at(t, i2, class, name, reqs, children, events, next_id) matches Err(e)
            ==> e.in_range(t.len() as int),
        !events ==> (parse_object_at(t, i2, class, name, reqs, children, events, next_id) matches
            Ok(p) ==> p.1 == next_id),
    decreases t.len(), 0int, toks_of(t).len() - i2, 0int,
{
    reveal(parse_from);
    reveal(parse_object_at);
    let toks = toks_of(t);
    lemma_spec_tokenize_wf(t);
    if i2 < toks.len() {
        lemma_tokens_wf_index(toks, 0, t.len() as int);
        lemma_tokens_wf_count(toks, 0, t.len() as int);
        if i2 + 1 < toks.len() {
            let bt = toks[i2 + 1];
            if bt.end() - bt.begin() > 0 {
                let sub = t.subrange(bt.begin() + 1, bt.end());
                lemma_spec_parse_metrics(sub, events, next_id);
                match spec_parse(sub, events, next_id) {
                    Ok((inner, nid2)) => {
                        lemma_parse_from_metrics(
                            t,
                            i2 + 2,
                            reqs,
                            children.push(
                                EntryModel::Object(
                                    ObjectModel { class, name, children: inner.children },
                                ),
                            ),
                            events,
                            nid2,
                        );
                    },
                    Err(e) => {
                        assert(e.in_range(sub.len() as int));
                    },
                }
            } else {
                lemma_parse_from_metrics(
                    t,
                    i2 + 2,
                    reqs,
                    children.push(
                        EntryModel::Object(ObjectModel { class, name, children: Seq::empty() }),
                    ),
                    events,
                    next_id,
                );
            }
        }
    }
}

/// The bareword text of a token, empty for any other kind of token.
pub open spec fn other_value(tm: TokenModel) -> Seq<char> {
    match tm {
        TokenModel::Other { value, .. } => value,
        _ => Seq::empty(),
    }
}

/// The walk ends once the tokens are exhausted.
proof fn lemma_step_end(
    t: Seq<char>,
    i: int,
    reqs: Seq<RequirementModel>,
    children: Seq<EntryModel>,
    events: bool,
    next_id: int,
)
    requires
        i >= toks_of(t).len(),
    ensures
        parse_from(t, i, reqs, children, events, next_id) == Ok::<
            (RootModel, int),
            ParseErrorModel,
        >((RootModel { requirements: reqs, children }, next_id)),
{
    reveal(parse_from);
}

/// A token that no statement can start with.
proof fn lemma_step_syntax(
    t: Seq<char>,
    i: int,
    reqs: Seq<RequirementModel>,
    children: Seq<EntryModel>,
    events: bool,
    next_id: int,
)
    requires
        0 <= i < toks_of(t).len(),
        !(toks_of(t)[i] is Other),
    ensures
        parse_from(t, i, reqs, children, events, next_id) == Err::<
            (RootModel, int),
            ParseErrorModel,
        >(
            ParseErrorModel::IncorrectSyntax {
                message: offset_msg("Incorrect syntax at offset "@, toks_of(t)[i].begin()),
                offset: toks_of(t)[i].begin(),
            },
        ),
{
    reveal(parse_from);
}

/// A well-shaped requirement declaration registers the requirement and
/// moves past its two arguments.
proof fn lemma_step_use(
    t: Seq<char>,
    i: int,
    reqs: Seq<RequirementModel>,
    children: Seq<EntryModel>,
    events: bool,
    next_id: int,
)
    requires
        0 <= i < toks_of(t).len(),
        toks_of(t)[i] is Other,
        other_value(toks_of(t)[i]) == "using"@,
    ensures
        i + 2 < toks_of(t).len() && toks_of(t)[i + 1] is Other && toks_of(t)[i + 2] is Other
            ==> parse_from(t, i, reqs, children, events, next_id) == parse_from(
            t,
            i + 3,
            reqs.push(
                requirement_of(other_value(toks_of(t)[i + 1]), other_value(toks_of(t)[i + 2])),
            ),
            children,
            events,
            next_id,
        ),
        !(i + 2 < toks_of(t).len() && toks_of(t)[i + 1] is Other && toks_of(t)[i + 2] is Other)
            ==> parse_from(t, i, reqs, children, events, next_id) == Err::<
            (RootModel, int),
            ParseErrorModel,
        >(
            ParseErrorModel::IncorrectUseStatement {
                message: offset_msg(
                    "Incorrect use statement at offset "@,
                    toks_of(t)[i].begin(),
                ),
                offset: toks_of(t)[i].begin(),
            },
        ),
{
    reveal(parse_from);
}

/// Whether token `i` of `t` starts a property assignment: a bareword whose
/// text ends in the property separator `:`.
pub open spec fn starts_property(t: Seq<char>, i: int) -> bool {
    toks_of(t)[i] is Other && other_value(toks_of(t)[i]) != "using"@ && other_ending_in(
        toks_of(t)[i],
        ':',
    )
}

/// A property assignment whose value never ends, or whose statement is cut
/// short, is malformed.
proof fn lemma_step_property_err(
    t: Seq<char>,
    i: int,
    reqs: Seq<RequirementModel>,
    children: Seq<EntryModel>,
    events: bool,
    next_id: int,
)
    requires
        0 <= i < toks_of(t).len(),
        starts_property(t, i),
    ensures
        i + 1 >= toks_of(t).len() ==> parse_from(t, i, reqs, children, events, next_id) == Err::<
            (RootModel, int),
            ParseErrorModel,
        >(
            ParseErrorModel::IncorrectPropertyDefinition {
                message: offset_msg(
                    "Incorrect property definition at offset "@,
                    toks_of(t)[i].begin(),
                ),
                offset: toks_of(t)[i].begin(),
            },
        ),
        i + 1 < toks_of(t).len() && find_terminator(toks_of(t), i + 1) is None ==> parse_from(
            t,
            i,
            reqs,
            children,
            events,
            next_id,
        ) == Err::<(RootModel, int), ParseErrorModel>(
            ParseErrorModel::IncorrectPropertyDefinition {
                message: offset_msg(
                    "Property value must be ended by semicolon, occured at offset "@,
                    toks_of(t)[i].begin(),
                ),
                offset: toks_of(t)[i].begin(),
            },
        ),
{
    reveal(parse_from);
}

/// A property assignment whose value is literal text: one bareword with the
/// terminator stripped, or a quoted string (or bareword) taken verbatim.
proof fn lemma_step_property_literal(
    t: Seq<char>,
    i: int,
    j: int,
    reqs: Seq<RequirementModel>,
    children: Seq<EntryModel>,
    events: bool,
    next_id: int,
)
    requires
        0 <= i < toks_of(t).len(),
        starts_property(t, i),
        i + 1 < toks_of(t).len(),
        find_terminator(toks_of(t), i + 1) == Some(j),
        j - i <= 2,
    ensures
        j - i == 1 ==> parse_from(t, i, reqs, children, events, next_id) == parse_from(
            t,
            j + 1,
            reqs,
            children.push(
                EntryModel::Property(
                    PropertyModel {
                        name: other_value(toks_of(t)[i]).subrange(
                            0,
                            other_value(toks_of(t)[i]).len() - 1,
                        ),
                        value: PropertyValueModel::Text(
                            other_value(toks_of(t)[i + 1]).subrange(
                                0,
                                other_value(toks_of(t)[i + 1]).len() - 1,
                            ),
                        ),
                    },
                ),
            ),
            events,
            next_id,
        ),
        j - i == 2 && (toks_of(t)[i + 1] matches TokenModel::Text { value: v, .. }) ==> parse_from(
            t,
            i,
            reqs,
            children,
            events,
            next_id,
        ) == parse_from(
            t,
            j + 1,
            reqs,
            children.push(
                EntryModel::Property(
                    PropertyModel {
                        name: other_value(toks_of(t)[i]).subrange(
                            0,
                            other_value(toks_of(t)[i]).len() - 1,
                        ),
                        value: PropertyValueModel::Text(
                            match toks_of(t)[i + 1] {
                                TokenModel::Text { value: v, .. } => v,
                                _ => Seq::empty(),
                            },
                        ),
                    },
                ),
            ),
            events,
            next_id,
        ),
        j - i == 2 && (toks_of(t)[i + 1] is Other) ==> parse_from(
            t,
            i,
            reqs,
            children,
            events,
            next_id,
        ) == parse_from(
            t,
            j + 1,
            reqs,
            children.push(
                EntryModel::Property(
                    PropertyModel {
                        name: other_value(toks_of(t)[i]).subrange(
                            0,
                            other_value(toks_of(t)[i]).len() - 1,
                        ),
                        value: PropertyValueModel::Text(other_value(toks_of(t)[i + 1])),
                    },
                ),
            ),
            events,
            next_id,
        ),
        j - i == 2 && !(toks_of(t)[i + 1] is Other) && !(toks_of(t)[i + 1] is Text) ==> parse_from(
            t,
            i,
            reqs,
            children,
            events,
            next_id,
        ) == Err::<(RootModel, int), ParseErrorModel>(
            ParseErrorModel::IncorrectPropertyDefinition {
                message: offset_msg(
                    "Incorrect property definition at offset "@,
                    toks_of(t)[i].begin(),
                ),
                offset: toks_of(t)[i].begin(),
            },
        ),
{
    reveal(parse_from);
    lemma_find_terminator_bounds(toks_of(t), i + 1);
}

/// A property assignment whose value spans several tokens: the span
/// re-parses as a nested document that must hold exactly one object.
proof fn lemma_step_property_nested(
    t: Seq<char>,
    i: int,
    j: int,
    reqs: Seq<RequirementModel>,
    children: Seq<EntryModel>,
    events: bool,
    next_id: int,
)
    requires
        0 <= i < toks_of(t).len(),
        starts_property(t, i),
        i + 1 < toks_of(t).len(),
        find_terminator(toks_of(t), i + 1) == Some(j),
        j - i > 2,
    ensures
        ({
            let sub = t.subrange(toks_of(t)[i + 1].begin(), toks_of(t)[j].end());
            parse_from(t, i, reqs, children, events, next_id) == match spec_parse(
                sub,
                events,
                next_id,
            ) {
                Err(e) => Err::<(RootModel, int), ParseErrorModel>(
                    e.shifted(toks_of(t)[i + 1].begin()),
                ),
                Ok((inner, nid2)) => {
                    if inner.children.len() != 1 {
                        Err(
                            ParseErrorModel::IncorrectPropertyDefinition {
                                message: offset_msg(
                                    "Property value must be a single object, occured at offset "@,
                                    toks_of(t)[i].begin(),
                                ),
                                offset: toks_of(t)[i].begin(),
                            },
                        )
                    } else {
                        match inner.children[0] {
                            EntryModel::Object(o) => parse_from(
                                t,
                                j + 1,
                                reqs,
                                children.push(
                                    EntryModel::Property(
                                        PropertyModel {
                                            name: other_value(toks_of(t)[i]).subrange(
                                                0,
                                                other_value(toks_of(t)[i]).len() - 1,
                                            ),
                                            value: PropertyValueModel::Entry(o),
                                        },
                                    ),
                                ),
                                events,
                                nid2,
                            ),
                            _ => Err(
                                ParseErrorModel::IncorrectPropertyDefinition {
                                    message: offset_msg(
                                        "Property value must be an object, occured at offset "@,
                                        toks_of(t)[i].begin(),
                                    ),
                                    offset: toks_of(t)[i].begin(),
                                },
                            ),
                        }
                    }
                },
            }
        }),
{
    reveal(parse_from);
}

/// Whether token `i` of `t` starts an event binding: a bareword followed by
/// the two-character arrow token.
pub open spec fn starts_event(t: Seq<char>, i: int) -> bool {
    toks_of(t)[i] is Other && other_value(toks_of(t)[i]) != "using"@ && !other_ending_in(
        toks_of(t)[i],
        ':',
    ) && i + 1 < toks_of(t).len() && other_is(toks_of(t)[i + 1], "=>"@)
}

/// An event binding: its brace group becomes the handler's script when
/// events are enabled, and a deterministic error otherwise.
proof fn lemma_step_event(
    t: Seq<char>,
    i: int,
    reqs: Seq<RequirementModel>,
    children: Seq<EntryModel>,
    events: bool,
    next_id: int,
)
    requires
        0 <= i < toks_of(t).len(),
        starts_event(t, i),
    ensures
        i + 2 >= toks_of(t).len() ==> parse_from(t, i, reqs, children, events, next_id) == Err::<
            (RootModel, int),
            ParseErrorModel,
        >(
            ParseErrorModel::IncorrectEventDefinition {
                message: offset_msg(
                    "Incorrect event definition at offset "@,
                    toks_of(t)[i].begin(),
                ),
                offset: toks_of(t)[i].begin(),
            },
        ),
        i + 2 < toks_of(t).len() && !(toks_of(t)[i + 2] is CurlyBrackets) ==> parse_from(
            t,
            i,
            reqs,
            children,
            events,
            next_id,
        ) == Err::<(RootModel, int), ParseErrorModel>(
            ParseErrorModel::IncorrectEventDefinition {
                message: offset_msg("Undefined event value at offset "@, toks_of(t)[i].begin()),
                offset: toks_of(t)[i].begin(),
            },
        ),
        i + 2 < toks_of(t).len() && toks_of(t)[i + 2] is CurlyBrackets && !events ==> parse_from(
            t,
            i,
            reqs,
            children,
            events,
            next_id,
        ) == Err::<(RootModel, int), ParseErrorModel>(
            ParseErrorModel::IncorrectEventDefinition {
                message: offset_msg(
                    "Rhai feature is not enabled, occured at offset "@,
                    toks_of(t)[i].begin(),
                ),
                offset: toks_of(t)[i].begin(),
            },
        ),
        i + 2 < toks_of(t).len() && toks_of(t)[i + 2] is CurlyBrackets && events ==> parse_from(
            t,
            i,
            reqs,
            children,
            events,
            next_id,
        ) == parse_from(
            t,
            i + 3,
            reqs,
            children.push(
                EntryModel::RhaiEvent(
                    RhaiEventModel {
                        name: other_value(toks_of(t)[i]),
                        code: t.subrange(
                            toks_of(t)[i + 2].begin() + 1,
                            toks_of(t)[i + 2].end(),
                        ),
                        event_id: next_id,
                    },
                ),
            ),
            events,
            next_id + 1,
        ),
{
    reveal(parse_from);
}

/// An object definition dispatches on whether a bareword id follows the
/// class name.
proof fn lemma_step_object_dispatch(
    t: Seq<char>,
    i: int,
    reqs: Seq<RequirementModel>,
    children: Seq<EntryModel>,
    events: bool,
    next_id: int,
)
    requires
        0 <= i < toks_of(t).len(),
        toks_of(t)[i] is Other,
        other_value(toks_of(t)[i]) != "using"@,
        !other_ending_in(toks_of(t)[i], ':'),
        !starts_event(t, i),
    ensures
        i + 1 >= toks_of(t).len() ==> parse_from(t, i, reqs, children, events, next_id) == Err::<
            (RootModel, int),
            ParseErrorModel,
        >(
            ParseErrorModel::IncorrectObjectDefinition {
                message: offset_msg(
                    "Incorrect object definition at offset "@,
                    toks_of(t)[i].begin(),
                ),
                offset: toks_of(t)[i].begin(),
            },
        ),
        i + 1 < toks_of(t).len() && toks_of(t)[i + 1] is Other ==> parse_from(
            t,
            i,
            reqs,
            children,
            events,
            next_id,
        ) == parse_object_at(
            t,
            i + 1,
            other_value(toks_of(t)[i]),
            Some(other_value(toks_of(t)[i + 1])),
            reqs,
            children,
            events,
            next_id,
        ),
        i + 1 < toks_of(t).len() && !(toks_of(t)[i + 1] is Other) ==> parse_from(
            t,
            i,
            reqs,
            children,
            events,
            next_id,
        ) == parse_object_at(
            t,
            i,
            other_value(toks_of(t)[i]),
            None,
            reqs,
            children,
            events,
            next_id,
        ),
{
    reveal(parse_from);
    reveal(parse_object_at);
}

/// The tail of an object definition: the bracket group's inner text, if
/// any, re-parses as the object's children; a missing group is an error.
proof fn lemma_step_object_tail(
    t: Seq<char>,
    i2: int,
    class: Seq<char>,
    name: Option<Seq<char>>,
    reqs: Seq<RequirementModel>,
    children: Seq<EntryModel>,
    events: bool,
    next_id: int,
)
    requires
        0 <= i2 < toks_of(t).len(),
    ensures
        i2 + 1 >= toks_of(t).len() ==> parse_object_at(
            t,
            i2,
            class,
            name,
            reqs,
            children,
            events,
            next_id,
        ) == Err::<(RootModel, int), ParseErrorModel>(
            ParseErrorModel::IncorrectObjectDefinition {
                message: offset_msg(
                    "Incorrect object definition at offset "@,
                    toks_of(t)[i2].begin(),
                ),
                offset: toks_of(t)[i2].begin(),
            },
        ),
        i2 + 1 < toks_of(t).len() && toks_of(t)[i2 + 1].end() - toks_of(t)[i2 + 1].begin() == 0
            ==> parse_object_at(t, i2, class, name, reqs, children, events, next_id) == parse_from(
            t,
            i2 + 2,
            reqs,
            children.push(
                EntryModel::Object(ObjectModel { class, name, children: Seq::empty() }),
            ),
            events,
            next_id,
        ),
        i2 + 1 < toks_of(t).len() && toks_of(t)[i2 + 1].end() - toks_of(t)[i2 + 1].begin() > 0
            ==> parse_object_at(t, i2, class, name, reqs, children, events, next_id) == match
            spec_parse(
            t.subrange(toks_of(t)[i2 + 1].begin() + 1, toks_of(t)[i2 + 1].end()),
            events,
            next_id,
        ) {
            Ok((inner, nid2)) => parse_from(
                t,
                i2 + 2,
                reqs,
                children.push(
                    EntryModel::Object(ObjectModel { class, name, children: inner.children }),
                ),
                events,
                nid2,
            ),
            Err(e) => Err::<(RootModel, int), ParseErrorModel>(
                e.shifted(toks_of(t)[i2 + 1].begin() + 1),
            ),
        },
{
    reveal(parse_object_at);
    reveal(parse_from);
    lemma_spec_tokenize_wf(t);
    if 0 <= i2 && i2 + 1 < toks_of(t).len() {
        lemma_tokens_wf_index(toks_of(t), 0, t.len() as int);
        assert(crate::token::token_wf(toks_of(t)[i2 + 1], 0, t.len() as int));
        let bt = toks_of(t)[i2 + 1];
        if bt.end() - bt.begin() > 0 {
            let sub = t.subrange(bt.begin() + 1, bt.end());
            match spec_parse(sub, events, next_id) {
                Ok(p) => {},
                Err(e) => {},
            }
        }
    }
}

/// The parser. See [`Parser::parse`].
pub struct Parser;

impl Parser {
    /// Scans the tokens from `from` for the first bareword ending in the
    /// statement terminator `;`.
    fn find_term(tokens: &Vec<Token>, from: usize) -> (r: Option<usize>)
        requires
            from <= tokens@.len(),
        ensures
            match r {
                Some(j) => find_terminator(tokens_model(tokens@), from as int) == Some(j as int)
                    && from <= j < tokens@.len(),
                None => find_terminator(tokens_model(tokens@), from as int) is None,
            },
    {
        let ghost toksm = tokens_model(tokens@);
        proof {
            lemma_tokens_model(tokens@);
        }
        let mut j = from;
        while j < tokens.len()
            invariant
                from <= j <= tokens.len(),
                toksm == tokens_model(tokens@),
                toksm.len() == tokens@.len(),
                forall|k: int| 0 <= k < tokens@.len() ==> toksm[k] == token_model(tokens@[k]),
                find_terminator(toksm, from as int) == find_terminator(toksm, j as int),
            decreases tokens.len() - j,
        {
            match &tokens[j] {
                Token::Other { value, .. } => {
                    let vl = value.as_str().unicode_len();
                    if vl > 0 && value.as_str().get_char(vl - 1) == ';' {
                        return Some(j);
                    }
                },
                _ => {},
            }
            j = j + 1;
        }
        None
    }

    /// Parses `text` into a tree, with event bindings disabled: an event
    /// binding in the input is reported as the deterministic "feature is
    /// not enabled" error.
    ///
    /// The result is exactly what [`spec_parse`] says of the input.
    pub fn parse(text: &str) -> (r: Result<Tree, ParseError>)
        ensures
            match r {
                Ok(tree) => spec_parse(text@, false, 0) == Ok::<(RootModel, int), ParseErrorModel>(
                    (root_model(tree.root), 0),
                ),
                Err(e) => spec_parse(text@, false, 0) == Err::<(RootModel, int), ParseErrorModel>(
                    e@,
                ),
            },
    {
        // measuring the input pins its character count, so the walk's
        // counter arithmetic is known not to overflow
        let _input_len = text.unicode_len();
        proof {
            lemma_spec_parse_metrics(text@, false, 0);
        }
        match Self::parse_config(text, false, 0) {
            Ok((tree, _)) => Ok(tree),
            Err(e) => Err(e),
        }
    }

    /// Parses `text` with event bindings enabled, drawing their handler
    /// identifiers from `first_event_id` on; returns the tree and the next
    /// unused identifier.
    ///
    /// The result is exactly what [`spec_parse`] says of the input.
    pub fn parse_with_events(text: &str, first_event_id: usize) -> (r: Result<
        (Tree, usize),
        ParseError,
    >)
        requires
            first_event_id + text@.len() <= usize::MAX,
        ensures
            match r {
                Ok((tree, next_id)) => spec_parse(text@, true, first_event_id as int) == Ok::<
                    (RootModel, int),
                    ParseErrorModel,
                >((root_model(tree.root), next_id as int)),
                Err(e) => spec_parse(text@, true, first_event_id as int) == Err::<
                    (RootModel, int),
                    ParseErrorModel,
                >(e@),
            },
    {
        Self::parse_config(text, true, first_event_id)
    }

    /// The parser's walk over the token sequence of `text`.
    #[verifier::rlimit(100)]
    fn parse_config(text: &str, events: bool, first_id: usize) -> (r: Result<
        (Tree, usize),
        ParseError,
    >)
        requires
            first_id + text@.len() <= usize::MAX,
        ensures
            match r {
                Ok((tree, next_id)) => spec_parse(text@, events, first_id as int) == Ok::<
                    (RootModel, int),
                    ParseErrorModel,
                >((root_model(tree.root), next_id as int)),
                Err(e) => spec_parse(text@, events, first_id as int) == Err::<
                    (RootModel, int),
                    ParseErrorModel,
                >(e@),
            },
        decreases text@.len(),
    {
        let ghost t = text@;
        let mut tree = Tree::new();
        let tokens = match Tokenizer::parse(text) {
            Ok(tk) => tk,
            Err(e) => {
                return Err(ParseError::TokenizeError(e));
            },
        };
        let ghost toks = toks_of(t);
        proof {
            lemma_tokens_model(tokens@);
            lemma_spec_tokenize_wf(t);
            lemma_tokens_wf_index(toks, 0, t.len() as int);
            lemma_tokens_wf_count(toks, 0, t.len() as int);
            assert(toks.len() <= t.len());
            assert(requirements_model(tree.root.requirements@) =~= Seq::<RequirementModel>::empty());
            assert(entries_model(tree.root.children@) =~= Seq::<EntryModel>::empty());
            reveal(parse_from);
            assert(spec_parse(t, events, first_id as int) == parse_from(
                t,
                0,
                Seq::empty(),
                Seq::empty(),
                events,
                first_id as int,
            ));
        }
        let n_toks = tokens.len();
        let mut i: usize = 0;
        let mut next_id: usize = first_id;
        while i < n_toks
            invariant
                t == text@,
                first_id + t.len() <= usize::MAX,
                toks == toks_of(t),
                spec_tokenize(t) == Ok::<Seq<TokenModel>, TokenizeErrorModel>(toks),
                tokens_model(tokens@) == toks,
                tokens@.len() == toks.len(),
                n_toks == tokens@.len(),
                forall|k: int| 0 <= k < toks.len() ==> toks[k] == token_model(tokens@[k]),
                toks.len() <= t.len(),
                t.len() <= usize::MAX,
                forall|k: int|
                    0 <= k < toks.len() ==> crate::token::token_wf(
                        #[trigger] toks[k],
                        0,
                        t.len() as int,
                    ),
                forall|k: int, l: int| 0 <= k < l < toks.len() ==> toks[k].end() < toks[l].begin(),
                forall|k: int| 0 <= k < toks.len() ==> (#[trigger] toks[k]).begin() >= k,
                i <= n_toks,
                next_id as int <= first_id + pos_of(t, i as int),
                pos_of(t, i as int) <= t.len(),
                parse_from(
                    t,
                    i as int,
                    requirements_model(tree.root.requirements@),
                    entries_model(tree.root.children@),
                    events,
                    next_id as int,
                ) == spec_parse(t, events, first_id as int),
            decreases n_toks - i,
        {
            let ghost reqs_m = requirements_model(tree.root.requirements@);
            let ghost children_m = entries_model(tree.root.children@);
            proof {
                assert(toks[i as int] == token_model(tokens@[i as int]));
            }
            match &tokens[i] {
                Token::Other { value: class, begin, .. } => {
                    let begin: usize = *begin;
                    let is_using = {
                        let u = String::from_str("using");
                        *class == u
                    };
                    let clen = class.as_str().unicode_len();
                    if is_using {
                        // requirement declaration: `using <lib> <version>`
                        proof {
                            lemma_step_use(t, i as int, reqs_m, children_m, events, next_id as int);
                        }
                        if n_toks - i > 2 && tokens[i + 1].is_other() && tokens[i + 2].is_other() {
                            match (&tokens[i + 1], &tokens[i + 2]) {
                                (
                                    Token::Other { value: lib, .. },
                                    Token::Other { value: version, .. },
                                ) => {
                                    proof {
                                        assert(toks[i + 1] == token_model(tokens@[i + 1]));
                                        assert(toks[i + 2] == token_model(tokens@[i + 2]));
                                    }
                                    let req = Requirement::new(lib.clone(), version.clone());
                                    tree.require(req);
                                    i = i + 3;
                                },
                                _ => {
                                    // unreachable: both tokens were just
                                    // checked to be barewords
                                    proof {
                                        assert(toks[i + 1] == token_model(tokens@[i + 1]));
                                        assert(toks[i + 2] == token_model(tokens@[i + 2]));
                                        assert(false);
                                    }
                                },
                            }
                        } else {
                            return Err(ParseError::IncorrectUseStatement {
                                message: build_offset_msg(
                                    "Incorrect use statement at offset ",
                                    begin,
                                ),
                                offset: begin,
                            });
                        }
                    } else if clen > 0 && class.as_str().get_char(clen - 1) == ':' {
                        // property assignment: `<name>: <value>;`
                        if n_toks - i > 1 {
                            match Self::find_term(&tokens, i + 1) {
                                None => {
                                    proof {
                                        lemma_step_property_err(
                                            t,
                                            i as int,
                                            reqs_m,
                                            children_m,
                                            events,
                                            next_id as int,
                                        );
                                    }
                                    return Err(ParseError::IncorrectPropertyDefinition {
                                        message: build_offset_msg(
                                            "Property value must be ended by semicolon, occured at offset ",
                                            begin,
                                        ),
                                        offset: begin,
                                    });
                                },
                                Some(j) => {
                                    proof {
                                        lemma_find_terminator_bounds(toks, (i + 1) as int);
                                        assert(toks[j as int] == token_model(tokens@[j as int]));
                                        assert(toks[i + 1] == token_model(tokens@[i + 1]));
                                    }
                                    let name = String::from_str(
                                        class.as_str().substring_char(0, clen - 1),
                                    );
                                    if j - i == 1 {
                                        proof {
                                            lemma_step_property_literal(
                                                t,
                                                i as int,
                                                j as int,
                                                reqs_m,
                                                children_m,
                                                events,
                                                next_id as int,
                                            );
                                        }
                                        match &tokens[i + 1] {
                                            Token::Other { value: v, .. } => {
                                                let vl = v.as_str().unicode_len();
                                                let stripped = String::from_str(
                                                    v.as_str().substring_char(0, vl - 1),
                                                );
                                                let entry = Property::entry(
                                                    name,
                                                    PropertyValue::Text(stripped),
                                                );
                                                tree.add_child(entry);
                                                i = j + 1;
                                            },
                                            _ => {
                                                // unreachable: the terminator
                                                // scan only stops on barewords
                                                proof {
                                                    assert(false);
                                                }
                                                return Err(ParseError::IncorrectSyntax {
                                                    message: String::new(),
                                                    offset: 0,
                                                });
                                            },
                                        }
                                    } else if j - i == 2 {
                                        proof {
                                            lemma_step_property_literal(
                                                t,
                                                i as int,
                                                j as int,
                                                reqs_m,
                                                children_m,
                                                events,
                                                next_id as int,
                                            );
                                        }
                                        match &tokens[i + 1] {
                                            Token::Text { value: v, .. } => {
                                                let entry = Property::entry(
                                                    name,
                                                    PropertyValue::Text(v.clone()),
                                                );
                                                tree.add_child(entry);
                                                i = j + 1;
                                            },
                                            Token::Other { value: v, .. } => {
                                                let entry = Property::entry(
                                                    name,
                                                    PropertyValue::Text(v.clone()),
                                                );
                                                tree.add_child(entry);
                                                i = j + 1;
                                            },
                                            _ => {
                                                return Err(
                                                    ParseError::IncorrectPropertyDefinition {
                                                        message: build_offset_msg(
                                                            "Incorrect property definition at offset ",
                                                            begin,
                                                        ),
                                                        offset: begin,
                                                    },
                                                );
                                            },
                                        }
                                    } else {
                                        // the value spans several tokens: it
                                        // must re-parse to exactly one object
                                        proof {
                                            lemma_step_property_nested(
                                                t,
                                                i as int,
                                                j as int,
                                                reqs_m,
                                                children_m,
                                                events,
                                                next_id as int,
                                            );
                                        }
                                        let vb = tokens[i + 1].get_begin();
                                        let je = tokens[j].get_end();
                                        let sub = text.substring_char(vb, je);
                                        proof {
                                            lemma_spec_parse_metrics(sub@, events, next_id as int);
                                        }
                                        match Self::parse_config(sub, events, next_id) {
                                            Err(e) => {
                                                return Err(e.offset(vb));
                                            },
                                            Ok((subtree, nid2)) => {
                                                let mut st = subtree;
                                                proof {
                                                    lemma_entries_model(st.root.children@);
                                                }
                                                if st.root.children.len() != 1 {
                                                    return Err(
                                                        ParseError::IncorrectPropertyDefinition {
                                                            message: build_offset_msg(
                                                                "Property value must be a single object, occured at offset ",
                                                                begin,
                                                            ),
                                                            offset: begin,
                                                        },
                                                    );
                                                }
                                                match st.root.children.pop() {
                                                    Some(Entry::Object(o)) => {
                                                        let entry = Property::entry(
                                                            name,
                                                            PropertyValue::Entry(o),
                                                        );
                                                        tree.add_child(entry);
                                                        next_id = nid2;
                                                        i = j + 1;
                                                    },
                                                    Some(other_entry) => {
                                                        proof {
                                                            assert(entry_model(other_entry)
                                                                == entries_model(
                                                                subtree.root.children@,
                                                            )[0]);
                                                        }
                                                        return Err(
                                                            ParseError::IncorrectPropertyDefinition {
                                                                message: build_offset_msg(
                                                                    "Property value must be an object, occured at offset ",
                                                                    begin,
                                                                ),
                                                                offset: begin,
                                                            },
                                                        );
                                                    },
                                                    None => {
                                                        // unreachable: exactly
                                                        // one child was checked
                                                        proof {
                                                            assert(false);
                                                        }
                                                        return Err(ParseError::IncorrectSyntax {
                                                            message: String::new(),
                                                            offset: 0,
                                                        });
                                                    },
                                                }
                                            },
                                        }
                                    }
                                },
                            }
                        } else {
                            proof {
                                lemma_step_property_err(
                                    t,
                                    i as int,
                                    reqs_m,
                                    children_m,
                                    events,
                                    next_id as int,
                                );
                            }
                            return Err(ParseError::IncorrectPropertyDefinition {
                                message: build_offset_msg(
                                    "Incorrect property definition at offset ",
                                    begin,
                                ),
                                offset: begin,
                            });
                        }
                    } else if n_toks - i > 1 && tokens[i + 1].is_other_value("=>") {
                        // event binding: `<trigger> => { <script> }`
                        proof {
                            assert(toks[i + 1] == token_model(tokens@[i + 1]));
                            lemma_step_event(t, i as int, reqs_m, children_m, events, next_id as int);
                        }
                        if n_toks - i > 2 {
                            proof {
                                assert(toks[i + 2] == token_model(tokens@[i + 2]));
                                assert(crate::token::token_wf(toks[i + 2], 0, t.len() as int));
                            }
                            match &tokens[i + 2] {
                                Token::CurlyBrackets { begin: gb, end: ge, .. } => {
                                    if events {
                                        let code = String::from_str(
                                            text.substring_char(*gb + 1, *ge),
                                        );
                                        let entry = RhaiEvent::entry(class.clone(), code, next_id);
                                        tree.add_child(entry);
                                        next_id = next_id + 1;
                                        i = i + 3;
                                    } else {
                                        return Err(ParseError::IncorrectEventDefinition {
                                            message: build_offset_msg(
                                                "Rhai feature is not enabled, occured at offset ",
                                                begin,
                                            ),
                                            offset: begin,
                                        });
                                    }
                                },
                                _ => {
                                    return Err(ParseError::IncorrectEventDefinition {
                                        message: build_offset_msg(
                                            "Undefined event value at offset ",
                                            begin,
                                        ),
                                        offset: begin,
                                    });
                                },
                            }
                        } else {
                            return Err(ParseError::IncorrectEventDefinition {
                                message: build_offset_msg(
                                    "Incorrect event definition at offset ",
                                    begin,
                                ),
                                offset: begin,
                            });
                        }
                    } else {
                        // object definition: `<Class> [<id>] { <body> }`
                        proof {
                            let ghost k1 = i as int + 1;
                            if k1 < toks.len() {
                                assert(toks[k1] == token_model(tokens@[k1]));
                            }
                            lemma_step_object_dispatch(
                                t,
                                i as int,
                                reqs_m,
                                children_m,
                                events,
                                next_id as int,
                            );
                        }
                        if n_toks - i <= 1 {
                            return Err(ParseError::IncorrectObjectDefinition {
                                message: build_offset_msg(
                                    "Incorrect object definition at offset ",
                                    begin,
                                ),
                                offset: begin,
                            });
                        }
                        let (name_opt, i2): (Option<String>, usize) = match &tokens[i + 1] {
                            Token::Other { value: nm, .. } => (Some(nm.clone()), i + 1),
                            _ => (None, i),
                        };
                        proof {
                            lemma_step_object_tail(
                                t,
                                i2 as int,
                                class@,
                                opt_string_model(name_opt),
                                reqs_m,
                                children_m,
                                events,
                                next_id as int,
                            );
                            let ghost k2 = i2 as int + 1;
                            if k2 < toks.len() {
                                assert(toks[k2] == token_model(tokens@[k2]));
                            }
                            assert(toks[i2 as int] == token_model(tokens@[i2 as int]));
                        }
                        if n_toks - i2 > 1 {
                            let bb = tokens[i2 + 1].get_begin();
                            let be = tokens[i2 + 1].get_end();
                            if be - bb > 0 {
                                let sub = text.substring_char(bb + 1, be);
                                proof {
                                    lemma_spec_parse_metrics(sub@, events, next_id as int);
                                }
                                match Self::parse_config(sub, events, next_id) {
                                    Ok((subtree, nid2)) => {
                                        let entry = Object::entry(
                                            class.clone(),
                                            name_opt,
                                            subtree.root.children,
                                        );
                                        tree.add_child(entry);
                                        next_id = nid2;
                                        i = i2 + 2;
                                    },
                                    Err(e) => {
                                        return Err(e.offset(bb + 1));
                                    },
                                }
                            } else {
                                let entry = Object::entry(class.clone(), name_opt, Vec::new());
                                proof {
                                    assert(entries_model(Seq::<Entry>::empty()) =~= Seq::<
                                        EntryModel,
                                    >::empty());
                                }
                                tree.add_child(entry);
                                i = i2 + 2;
                            }
                        } else {
                            let ob = tokens[i2].get_begin();
                            return Err(ParseError::IncorrectObjectDefinition {
                                message: build_offset_msg(
                                    "Incorrect object definition at offset ",
                                    ob,
                                ),
                                offset: ob,
                            });
                        }
                    }
                },
                tk => {
                    proof {
                        lemma_step_syntax(t, i as int, reqs_m, children_m, events, next_id as int);
                    }
                    let ob = tk.get_begin();
                    return Err(ParseError::IncorrectSyntax {
                        message: build_offset_msg("Incorrect syntax at offset ", ob),
                        offset: ob,
                    });
                },
            }
        }
        proof {
            lemma_step_end(
                t,
                i as int,
                requirements_model(tree.root.requirements@),
                entries_model(tree.root.children@),
                events,
                next_id as int,
            );
        }
        Ok((tree, next_id))
    }
}

} // verus!
