//! The parser: from tokens to the syntax tree. Whitespace and comments
//! are skipped; what cannot be parsed is skipped up to a token that can
//! be, and becomes an error node. Parsing never fails.

pub mod error;

use crate::ast::model::{
    AliasModel, AliasNameModel, AlternativeModel, AppliedModel, AstModel, BindingModel, ExprModel,
    FieldModel, GlobalModel, IdentModel, InnerNameModel, ListModel, NamedModel, PrimitiveModel,
    SingleModel, StructModel, UnionModel, UseBodyModel, UseItemModel, UseItemsModel, UseKindModel,
    UseModel,
};
use crate::ast::bounds::{
    alias_within, expr_within, field_within, globals_within, ident_within, info_within,
    item_within, option_within,
};
use crate::ast::model::{
    alternative_models, expr_models, field_models, global_models, inner_models, item_models,
    lemma_items_model, lemma_list_model, lemma_struct_model, lemma_union_model,
};
use crate::ast::{
    Alias, AliasName, Ast, AstInfo, AstInfoView, Bool, Def, Expr, Global, Ident, InnerName, Let,
    List, Named, Prelude, Primitive, PrimitiveValue, Single, Struct, StructField,
    StructFieldError, StructOrList, Union, UnionAlternative, Use, UseBody, UseItem, UseItemError,
    UseItems, UseKind,
};
pub use crate::parser::error::{Error, ErrorMessage};
use crate::token::{Token, TokenKind, TokenRange, TokenStream, TokenType};
use vstd::prelude::*;

verus! {

/// What a production comes to: the node, the place after it, and the
/// errors so far.
pub ghost struct Step<T> {
    pub node: T,
    pub end: int,
    pub errors: Seq<Error>,
}

/// Whether a token is whitespace or a comment.
pub open spec fn is_trivia(kind: TokenType) -> bool {
    kind is Whitespace || kind is Comment
}

/// The place of the first token from `pos` on that is neither whitespace
/// nor a comment; the number of tokens if there is none.
pub open spec fn skip(tokens: Seq<Token>, pos: int) -> int
    decreases tokens.len() - pos,
{
    if 0 <= pos < tokens.len() && is_trivia(tokens[pos].token_type) {
        skip(tokens, pos + 1)
    } else {
        pos
    }
}

/// The comments among the tokens from `from` up to `to`.
pub open spec fn comments_between(tokens: Seq<Token>, from: int, to: int) -> Seq<Seq<char>>
    decreases to - from,
{
    if to <= from || !(0 < to <= tokens.len()) {
        Seq::empty()
    } else {
        let before = comments_between(tokens, from, to - 1);
        if tokens[to - 1].token_type is Comment {
            before.push(tokens[to - 1].token_type.spec_text())
        } else {
            before
        }
    }
}

/// The tokens from `start` up to `end`.
pub open spec fn span(start: int, end: int) -> TokenRange {
    (start as usize)..(end as usize)
}

/// What a node carries that is parsed at `pos` and ends at `end`: the
/// whitespace and comments in front of it, and the tokens after them up
/// to `end`.
pub open spec fn info_from(tokens: Seq<Token>, pos: int, end: int) -> AstInfoView {
    let start = skip(tokens, pos);
    AstInfoView {
        comments: comments_between(tokens, pos, start),
        prelude: span(pos, start),
        range: span(start, end),
    }
}

/// What the token carries that is parsed at `pos`.
pub open spec fn token_info(tokens: Seq<Token>, pos: int) -> AstInfoView {
    info_from(tokens, pos, skip(tokens, pos) + 1)
}

/// Whether the next token from `pos` on that is no whitespace and no
/// comment is of the kind.
pub open spec fn next_is(tokens: Seq<Token>, pos: int, kind: TokenKind) -> bool {
    0 <= pos && skip(tokens, pos) < tokens.len() && tokens[skip(tokens, pos)].token_type.spec_kind()
        == kind
}

/// The text of the next token from `pos` on that is no whitespace and no
/// comment.
pub open spec fn next_text(tokens: Seq<Token>, pos: int) -> Seq<char> {
    tokens[skip(tokens, pos)].token_type.spec_text()
}

/// The sets of tokens at which skipping ends.
#[derive(Clone, Copy, Debug)]
pub enum Sync {
    Global,
    UseKind,
    Expr,
    StructField,
}

/// Whether a global can start with the token, or the input ends with it.
pub open spec fn in_global_sync(kind: TokenKind) -> bool {
    kind is Use || kind is Def || kind is Let || kind is LCurly || kind is LBracket
        || kind is Ident || kind is Eof
}

impl Sync {
    /// Whether the token is in the set.
    pub open spec fn holds(self, kind: TokenKind) -> bool {
        match self {
            Sync::Global => in_global_sync(kind),
            Sync::UseKind => kind is Star || kind is As || kind is RCurly || in_global_sync(kind),
            Sync::Expr => kind is Eq || kind is RCurly || kind is RBracket || kind is As
                || in_global_sync(kind),
            Sync::StructField => kind is Pipe || kind is Eq || kind is RCurly
                || kind is RBracket || kind is As || in_global_sync(kind),
        }
    }
}

/// Whether a token of the set is in sight at `pos`: the next token that
/// is no whitespace and no comment is in the set, or there is none.
pub open spec fn at_sync(tokens: Seq<Token>, pos: int, sync: Sync) -> bool {
    skip(tokens, pos) >= tokens.len() || sync.holds(
        tokens[skip(tokens, pos)].token_type.spec_kind(),
    )
}

/// The first place from `pos` on at which a token of the set is in
/// sight.
pub open spec fn sync_point(tokens: Seq<Token>, pos: int, sync: Sync) -> int
    decreases tokens.len() - pos,
{
    if 0 <= pos < tokens.len() && !at_sync(tokens, pos, sync) {
        sync_point(tokens, pos + 1, sync)
    } else {
        pos
    }
}

/// The place at which a missing piece is reported: the token before the
/// place at which it was expected.
pub open spec fn before(pos: int) -> int {
    if pos > 0 {
        pos - 1
    } else {
        0
    }
}

/// Whether the range of every error lies within the first `len` tokens.
pub open spec fn ranges_within(errors: Seq<Error>, len: int) -> bool {
    forall|i: int|
        0 <= i < errors.len() ==> (#[trigger] errors[i]).range.start <= errors[i].range.end
            <= len
}

/// The errors with one more, for a piece that is missing at `pos`.
pub open spec fn missing(errors: Seq<Error>, message: ErrorMessage, pos: int) -> Seq<Error> {
    errors.push(Error { message, range: span(before(pos), before(pos)) })
}

/// The span that is skipped at `pos`, if a token is there that is not in
/// the set: it reaches up to the first place at which a token of the set
/// is in sight, and is reported as unexpected.
pub open spec fn spec_skipped(tokens: Seq<Token>, pos: int, sync: Sync, errors: Seq<Error>) -> Option<
    Step<AstInfoView>,
> {
    let start = skip(tokens, pos);
    if pos < 0 || at_sync(tokens, start, sync) {
        None
    } else {
        let end = sync_point(tokens, start + 1, sync);
        Some(
            Step {
                node: info_from(tokens, pos, end),
                end,
                errors: errors.push(
                    Error { message: ErrorMessage::UnexpectedTokens, range: span(start, end) },
                ),
            },
        )
    }
}

/// The identifier at `pos`.
pub open spec fn spec_ident(tokens: Seq<Token>, pos: int) -> IdentModel {
    IdentModel { name: next_text(tokens, pos), info: token_info(tokens, pos) }
}

/// The identifier that is expected at `pos`, and the place after it. A
/// missing identifier is an error, and parsing goes on at `pos`.
pub open spec fn spec_expected_ident(tokens: Seq<Token>, pos: int, errors: Seq<Error>) -> Step<
    Option<IdentModel>,
> {
    if next_is(tokens, pos, TokenKind::Ident) {
        Step { node: Some(spec_ident(tokens, pos)), end: skip(tokens, pos) + 1, errors }
    } else {
        Step { node: None, end: pos, errors: missing(errors, ErrorMessage::ExpectedIdent, pos) }
    }
}

/// The token of a kind that is expected at `pos`, and the place after
/// it. A missing token is an error, and parsing goes on at `pos`.
pub open spec fn spec_expected_token(
    tokens: Seq<Token>,
    pos: int,
    kind: TokenKind,
    message: ErrorMessage,
    errors: Seq<Error>,
) -> Step<Option<AstInfoView>> {
    if next_is(tokens, pos, kind) {
        Step { node: Some(token_info(tokens, pos)), end: skip(tokens, pos) + 1, errors }
    } else {
        Step { node: None, end: pos, errors: missing(errors, message, pos) }
    }
}

/// The alias at `pos`: `as`, then a string or an identifier.
pub open spec fn spec_alias(tokens: Seq<Token>, pos: int) -> Step<Option<AliasModel>> {
    if next_is(tokens, pos, TokenKind::As) {
        let start = skip(tokens, pos);
        let (name, end) = if next_is(tokens, start + 1, TokenKind::String) {
            (
                Some(
                    AliasNameModel::String(
                        next_text(tokens, start + 1),
                        token_info(tokens, start + 1),
                    ),
                ),
                skip(tokens, start + 1) + 1,
            )
        } else if next_is(tokens, start + 1, TokenKind::Ident) {
            (
                Some(AliasNameModel::Ident(spec_ident(tokens, start + 1))),
                skip(tokens, start + 1) + 1,
            )
        } else {
            (None, start + 1)
        };
        Step {
            node: Some(
                AliasModel {
                    as_kw: token_info(tokens, start),
                    name,
                    info: info_from(tokens, pos, end),
                },
            ),
            end,
            errors: Seq::empty(),
        }
    } else {
        Step { node: None, end: pos, errors: Seq::empty() }
    }
}

/// The literal at `pos`, if there is one.
pub open spec fn spec_primitive(tokens: Seq<Token>, pos: int) -> Option<PrimitiveModel> {
    let info = token_info(tokens, pos);
    if next_is(tokens, pos, TokenKind::String) {
        Some(PrimitiveModel::String(next_text(tokens, pos), info))
    } else if next_is(tokens, pos, TokenKind::Char) {
        Some(PrimitiveModel::Char(next_text(tokens, pos), info))
    } else if next_is(tokens, pos, TokenKind::Number) {
        Some(PrimitiveModel::Number(next_text(tokens, pos), info))
    } else if next_is(tokens, pos, TokenKind::True) {
        Some(PrimitiveModel::Bool(true, info))
    } else if next_is(tokens, pos, TokenKind::False) {
        Some(PrimitiveModel::Bool(false, info))
    } else if next_is(tokens, pos, TokenKind::Null) {
        Some(PrimitiveModel::Null(info))
    } else {
        None
    }
}

/// Whether a place lies within the tokens.
pub open spec fn within(tokens: Seq<Token>, pos: int) -> bool {
    0 <= pos <= tokens.len()
}

/// The inner names from `pos` on: each `::` with the identifier that is
/// expected after it.
pub open spec fn spec_inner_names(
    tokens: Seq<Token>,
    pos: int,
    acc: Seq<InnerNameModel>,
    errors: Seq<Error>,
) -> Step<Seq<InnerNameModel>>
    decreases tokens.len() - pos,
{
    if within(tokens, pos) && next_is(tokens, pos, TokenKind::DoubleColon) {
        proof {
            lemma_skip(tokens, pos);
        }
        let start = skip(tokens, pos);
        let name = spec_expected_ident(tokens, start + 1, errors);
        if start + 1 <= name.end <= tokens.len() {
            spec_inner_names(
                tokens,
                name.end,
                acc.push(
                    InnerNameModel {
                        double_colon: token_info(tokens, start),
                        name: name.node,
                        info: info_from(tokens, pos, name.end),
                    },
                ),
                name.errors,
            )
        } else {
            Step { node: acc, end: pos, errors }
        }
    } else {
        Step { node: acc, end: pos, errors }
    }
}

/// The place of what `skip` finds lies at or after `pos`, within the
/// tokens, and no whitespace and no comment is there.
pub proof fn lemma_skip(tokens: Seq<Token>, pos: int)
    requires
        within(tokens, pos),
    ensures
        pos <= skip(tokens, pos) <= tokens.len(),
        skip(tokens, pos) < tokens.len() ==> !is_trivia(tokens[skip(tokens, pos)].token_type),
        skip(tokens, skip(tokens, pos)) == skip(tokens, pos),
    decreases tokens.len() - pos,
{
    if pos < tokens.len() && is_trivia(tokens[pos].token_type) {
        lemma_skip(tokens, pos + 1);
    }
}

/// The expression that is expected at `pos`. A missing expression is an
/// error at the next token that is no whitespace and no comment, and
/// parsing goes on there.
pub open spec fn spec_expected_expr(tokens: Seq<Token>, pos: int, errors: Seq<Error>) -> Step<
    Option<ExprModel>,
>
    decreases tokens.len() - pos, 4nat,
{
    match spec_expr(tokens, pos, errors) {
        Some(step) => Step { node: Some(step.node), end: step.end, errors: step.errors },
        None => Step {
            node: None,
            end: skip(tokens, pos),
            errors: missing(errors, ErrorMessage::ExpectedExpr, skip(tokens, pos)),
        },
    }
}

/// What a type annotation comes to: the colon, the type, the place
/// after them, and the errors.
pub ghost struct Annotation {
    pub colon: Option<AstInfoView>,
    pub type_expr: Option<ExprModel>,
    pub end: int,
    pub errors: Seq<Error>,
}

/// The type annotation at `pos`, if there is one: a colon and the
/// expression that is expected after it.
pub open spec fn spec_annotation(tokens: Seq<Token>, pos: int, errors: Seq<Error>) -> Annotation
    decreases tokens.len() - pos, 5nat,
{
    if within(tokens, pos) && next_is(tokens, pos, TokenKind::Colon) {
        proof {
            lemma_skip(tokens, pos);
        }
        let expr = spec_expected_expr(tokens, skip(tokens, pos) + 1, errors);
        Annotation {
            colon: Some(token_info(tokens, pos)),
            type_expr: expr.node,
            end: expr.end,
            errors: expr.errors,
        }
    } else {
        Annotation { colon: None, type_expr: None, end: pos, errors }
    }
}

/// The expression at `pos`: a single expression, with the alternatives
/// that follow it a union. Where no single expression starts, the
/// tokens up to the next one that can follow an expression are skipped.
/// The whitespace and the comments after a single expression belong to
/// it.
pub open spec fn spec_expr(tokens: Seq<Token>, pos: int, errors: Seq<Error>) -> Option<
    Step<ExprModel>,
>
    decreases tokens.len() - pos, 3nat,
{
    if !within(tokens, pos) {
        None
    } else {
        proof {
            lemma_skip(tokens, pos);
        }
        let start = skip(tokens, pos);
        match spec_single(tokens, start, errors) {
            Some(single) => {
                if start < single.end <= tokens.len() {
                    proof {
                        lemma_skip(tokens, single.end);
                    }
                    let alternatives = spec_alternatives(
                        tokens,
                        skip(tokens, single.end),
                        Seq::empty(),
                        single.errors,
                    );
                    if alternatives.node.len() == 0 {
                        Some(
                            Step {
                                node: ExprModel::Single(single.node),
                                end: alternatives.end,
                                errors: alternatives.errors,
                            },
                        )
                    } else {
                        Some(
                            Step {
                                node: ExprModel::Union(
                                    UnionModel {
                                        single: single.node,
                                        alternatives: alternatives.node,
                                        info: info_from(tokens, pos, alternatives.end),
                                    },
                                ),
                                end: alternatives.end,
                                errors: alternatives.errors,
                            },
                        )
                    }
                } else {
                    None
                }
            },
            None => match spec_skipped(tokens, start, Sync::Expr, errors) {
                Some(skipped) => Some(
                    Step {
                        node: ExprModel::Error(skipped.node),
                        end: skipped.end,
                        errors: skipped.errors,
                    },
                ),
                None => None,
            },
        }
    }
}

/// The alternatives of a union from `pos` on: each `|` with the single
/// expression that is expected after it.
pub open spec fn spec_alternatives(
    tokens: Seq<Token>,
    pos: int,
    acc: Seq<AlternativeModel>,
    errors: Seq<Error>,
) -> Step<Seq<AlternativeModel>>
    decreases tokens.len() - pos, 2nat,
{
    if within(tokens, pos) && next_is(tokens, pos, TokenKind::Pipe) {
        proof {
            lemma_skip(tokens, pos);
        }
        let start = skip(tokens, pos);
        let (single, end, after) = match spec_single(tokens, start + 1, errors) {
            Some(step) => (Some(step.node), step.end, step.errors),
            None => (None, start + 1, missing(errors, ErrorMessage::ExpectedSingle, start + 1)),
        };
        if start + 1 <= end <= tokens.len() {
            spec_alternatives(
                tokens,
                end,
                acc.push(
                    AlternativeModel {
                        pipe: token_info(tokens, start),
                        single,
                        info: info_from(tokens, pos, end),
                    },
                ),
                after,
            )
        } else {
            Step { node: acc, end: pos, errors }
        }
    } else {
        Step { node: acc, end: pos, errors }
    }
}

/// The single expression at `pos`, if one starts there: a struct, a
/// list, a name or a literal.
pub open spec fn spec_single(tokens: Seq<Token>, pos: int, errors: Seq<Error>) -> Option<
    Step<SingleModel>,
>
    decreases tokens.len() - pos, 2nat,
{
    if !within(tokens, pos) {
        None
    } else if next_is(tokens, pos, TokenKind::LCurly) {
        let s = spec_struct(tokens, pos, errors);
        Some(Step { node: SingleModel::Struct(s.node), end: s.end, errors: s.errors })
    } else if next_is(tokens, pos, TokenKind::LBracket) {
        let l = spec_list(tokens, pos, errors);
        Some(Step { node: SingleModel::List(l.node), end: l.end, errors: l.errors })
    } else if next_is(tokens, pos, TokenKind::Ident) {
        let n = spec_named(tokens, pos, errors);
        Some(Step { node: SingleModel::Named(n.node), end: n.end, errors: n.errors })
    } else {
        match spec_primitive(tokens, pos) {
            Some(primitive) => Some(
                Step {
                    node: SingleModel::Primitive(primitive),
                    end: skip(tokens, pos) + 1,
                    errors,
                },
            ),
            None => None,
        }
    }
}

/// The struct at `pos`, where `{` is the next token: the fields, and the
/// `}` that is expected after them.
pub open spec fn spec_struct(tokens: Seq<Token>, pos: int, errors: Seq<Error>) -> Step<StructModel>
    decreases tokens.len() - pos, 1nat,
{
    if within(tokens, pos) && skip(tokens, pos) < tokens.len() {
        proof {
            lemma_skip(tokens, pos);
        }
        let start = skip(tokens, pos);
        let fields = spec_fields(tokens, start + 1, Seq::empty(), errors);
        let closing = spec_expected_token(
            tokens,
            fields.end,
            TokenKind::RCurly,
            ErrorMessage::MissingClosingCurly,
            fields.errors,
        );
        Step {
            node: StructModel {
                lcurly: token_info(tokens, start),
                fields: fields.node,
                rcurly: closing.node,
                info: info_from(tokens, pos, closing.end),
            },
            end: closing.end,
            errors: closing.errors,
        }
    } else {
        arbitrary()
    }
}

/// The fields of a struct from `pos` on. Where no field starts, the
/// tokens up to the next one that can follow a field are skipped.
pub open spec fn spec_fields(
    tokens: Seq<Token>,
    pos: int,
    acc: Seq<Result<FieldModel, AstInfoView>>,
    errors: Seq<Error>,
) -> Step<Seq<Result<FieldModel, AstInfoView>>>
    decreases tokens.len() - pos, 2nat,
{
    if !within(tokens, pos) {
        Step { node: acc, end: pos, errors }
    } else if next_is(tokens, pos, TokenKind::Ident) {
        let field = spec_field(tokens, pos, errors);
        if pos < field.end <= tokens.len() {
            spec_fields(tokens, field.end, acc.push(Ok(field.node)), field.errors)
        } else {
            Step { node: acc, end: pos, errors }
        }
    } else {
        match spec_skipped(tokens, pos, Sync::StructField, errors) {
            Some(skipped) => if pos < skipped.end <= tokens.len() {
                spec_fields(tokens, skipped.end, acc.push(Err(skipped.node)), skipped.errors)
            } else {
                Step { node: acc, end: pos, errors }
            },
            None => Step { node: acc, end: pos, errors },
        }
    }
}

/// The field at `pos`, where an identifier is the next token: the name,
/// a type annotation, `=` with the expression that is expected after
/// it, and an alias, each of the three if it is there.
pub open spec fn spec_field(tokens: Seq<Token>, pos: int, errors: Seq<Error>) -> Step<FieldModel>
    decreases tokens.len() - pos, 1nat,
{
    if within(tokens, pos) && skip(tokens, pos) < tokens.len() {
        proof {
            lemma_skip(tokens, pos);
        }
        let start = skip(tokens, pos);
        let annotation = spec_annotation(tokens, start + 1, errors);
        if start + 1 <= annotation.end <= tokens.len() {
            proof {
                lemma_skip(tokens, annotation.end);
            }
            let (eq, expr) = if next_is(tokens, annotation.end, TokenKind::Eq) {
                (
                    Some(token_info(tokens, annotation.end)),
                    spec_expected_expr(
                        tokens,
                        skip(tokens, annotation.end) + 1,
                        annotation.errors,
                    ),
                )
            } else {
                (None, Step { node: None, end: annotation.end, errors: annotation.errors })
            };
            let alias = spec_alias(tokens, expr.end);
            Step {
                node: FieldModel {
                    name: spec_ident(tokens, start),
                    colon: annotation.colon,
                    type_expr: annotation.type_expr,
                    eq,
                    expr: expr.node,
                    alias: alias.node,
                    info: info_from(tokens, pos, alias.end),
                },
                end: alias.end,
                errors: expr.errors,
            }
        } else {
            arbitrary()
        }
    } else {
        arbitrary()
    }
}

/// The list at `pos`, where `[` is the next token: the items, and the
/// `]` that is expected after them.
pub open spec fn spec_list(tokens: Seq<Token>, pos: int, errors: Seq<Error>) -> Step<ListModel>
    decreases tokens.len() - pos, 1nat,
{
    if within(tokens, pos) && skip(tokens, pos) < tokens.len() {
        proof {
            lemma_skip(tokens, pos);
        }
        let start = skip(tokens, pos);
        let exprs = spec_exprs(tokens, start + 1, Seq::empty(), errors);
        let closing = spec_expected_token(
            tokens,
            exprs.end,
            TokenKind::RBracket,
            ErrorMessage::MissingClosingBracket,
            exprs.errors,
        );
        Step {
            node: ListModel {
                lbracket: token_info(tokens, start),
                exprs: exprs.node,
                rbracket: closing.node,
                info: info_from(tokens, pos, closing.end),
            },
            end: closing.end,
            errors: closing.errors,
        }
    } else {
        arbitrary()
    }
}

/// The items of a list from `pos` on.
pub open spec fn spec_exprs(
    tokens: Seq<Token>,
    pos: int,
    acc: Seq<ExprModel>,
    errors: Seq<Error>,
) -> Step<Seq<ExprModel>>
    decreases tokens.len() - pos, 4nat,
{
    match spec_expr(tokens, pos, errors) {
        Some(expr) => if pos < expr.end <= tokens.len() {
            spec_exprs(tokens, expr.end, acc.push(expr.node), expr.errors)
        } else {
            Step { node: acc, end: pos, errors }
        },
        None => Step { node: acc, end: pos, errors },
    }
}

/// The name at `pos`, where an identifier is the next token: the name,
/// the inner names, and the struct or list that the name is applied to,
/// if one follows.
pub open spec fn spec_named(tokens: Seq<Token>, pos: int, errors: Seq<Error>) -> Step<NamedModel>
    decreases tokens.len() - pos, 1nat,
{
    if within(tokens, pos) && skip(tokens, pos) < tokens.len() {
        proof {
            lemma_skip(tokens, pos);
        }
        let start = skip(tokens, pos);
        let inner = spec_inner_names(tokens, start + 1, Seq::empty(), errors);
        if start + 1 <= inner.end <= tokens.len() {
            let (expr, end, after) = if next_is(tokens, inner.end, TokenKind::LCurly) {
                let s = spec_struct(tokens, inner.end, inner.errors);
                (Some(AppliedModel::Struct(s.node)), s.end, s.errors)
            } else if next_is(tokens, inner.end, TokenKind::LBracket) {
                let l = spec_list(tokens, inner.end, inner.errors);
                (Some(AppliedModel::List(l.node)), l.end, l.errors)
            } else {
                (None, inner.end, inner.errors)
            };
            Step {
                node: NamedModel {
                    name: spec_ident(tokens, start),
                    inner_names: inner.node,
                    expr,
                    info: info_from(tokens, pos, end),
                },
                end,
                errors: after,
            }
        } else {
            arbitrary()
        }
    } else {
        arbitrary()
    }
}

/// The body of a use or of an item at `pos`, if `::` is the next token:
/// the `::`, and what is used, which is expected after it.
pub open spec fn spec_use_body(tokens: Seq<Token>, pos: int, errors: Seq<Error>) -> Option<
    Step<UseBodyModel>,
>
    decreases tokens.len() - pos, 1nat,
{
    if within(tokens, pos) && next_is(tokens, pos, TokenKind::DoubleColon) {
        proof {
            lemma_skip(tokens, pos);
            lemma_skip(tokens, skip(tokens, pos) + 1);
        }
        let start = skip(tokens, pos);
        let (kind, end, after) = match spec_use_kind(tokens, start + 1, errors) {
            Some(step) => (Some(step.node), step.end, step.errors),
            None => (
                None,
                skip(tokens, start + 1),
                missing(errors, ErrorMessage::ExpectedUseKind, skip(tokens, start + 1)),
            ),
        };
        Some(
            Step {
                node: UseBodyModel {
                    double_colon: token_info(tokens, start),
                    kind,
                    info: info_from(tokens, pos, end),
                },
                end,
                errors: after,
            },
        )
    } else {
        None
    }
}

/// What is used at `pos`: everything, one item, or the items between
/// braces. Where none of these starts, the tokens up to the next one
/// that can follow are skipped.
pub open spec fn spec_use_kind(tokens: Seq<Token>, pos: int, errors: Seq<Error>) -> Option<
    Step<UseKindModel>,
>
    decreases tokens.len() - pos, 3nat,
{
    if !within(tokens, pos) {
        None
    } else if next_is(tokens, pos, TokenKind::Star) {
        Some(
            Step {
                node: UseKindModel::All(token_info(tokens, pos)),
                end: skip(tokens, pos) + 1,
                errors,
            },
        )
    } else if next_is(tokens, pos, TokenKind::Ident) {
        let item = spec_use_item(tokens, pos, errors);
        Some(Step { node: UseKindModel::Single(item.node), end: item.end, errors: item.errors })
    } else if next_is(tokens, pos, TokenKind::LCurly) {
        let items = spec_use_items(tokens, pos, errors);
        Some(
            Step { node: UseKindModel::Multiple(items.node), end: items.end, errors: items.errors },
        )
    } else {
        match spec_skipped(tokens, pos, Sync::UseKind, errors) {
            Some(skipped) => Some(
                Step {
                    node: UseKindModel::Error(skipped.node),
                    end: skipped.end,
                    errors: skipped.errors,
                },
            ),
            None => None,
        }
    }
}

/// The item at `pos`, where an identifier is the next token: the name, a
/// body and an alias, each of the two if it is there.
pub open spec fn spec_use_item(tokens: Seq<Token>, pos: int, errors: Seq<Error>) -> Step<
    UseItemModel,
>
    decreases tokens.len() - pos, 2nat,
{
    if within(tokens, pos) && skip(tokens, pos) < tokens.len() {
        proof {
            lemma_skip(tokens, pos);
        }
        let start = skip(tokens, pos);
        let (body, end, after) = match spec_use_body(tokens, start + 1, errors) {
            Some(step) => (Some(Box::new(step.node)), step.end, step.errors),
            None => (None, start + 1, errors),
        };
        let alias = spec_alias(tokens, end);
        Step {
            node: UseItemModel {
                name: spec_ident(tokens, start),
                body,
                alias: alias.node,
                info: info_from(tokens, pos, alias.end),
            },
            end: alias.end,
            errors: after,
        }
    } else {
        arbitrary()
    }
}

/// The items between braces at `pos`, where `{` is the next token: the
/// items, and the `}` that is expected after them. A missing `}` is an
/// error at the next token that is no whitespace and no comment.
pub open spec fn spec_use_items(tokens: Seq<Token>, pos: int, errors: Seq<Error>) -> Step<
    UseItemsModel,
>
    decreases tokens.len() - pos, 2nat,
{
    if within(tokens, pos) && skip(tokens, pos) < tokens.len() {
        proof {
            lemma_skip(tokens, pos);
        }
        let start = skip(tokens, pos);
        let items = spec_item_list(tokens, start + 1, Seq::empty(), errors);
        let (rcurly, end, after) = if next_is(tokens, items.end, TokenKind::RCurly) {
            (Some(token_info(tokens, items.end)), skip(tokens, items.end) + 1, items.errors)
        } else {
            (
                None,
                skip(tokens, items.end),
                missing(items.errors, ErrorMessage::MissingClosingCurly, skip(tokens, items.end)),
            )
        };
        Step {
            node: UseItemsModel {
                lcurly: token_info(tokens, start),
                items: items.node,
                rcurly,
                info: info_from(tokens, pos, end),
            },
            end,
            errors: after,
        }
    } else {
        arbitrary()
    }
}

/// The items between braces from `pos` on. Where no item starts, the
/// tokens up to the next one that can follow an item are skipped.
pub open spec fn spec_item_list(
    tokens: Seq<Token>,
    pos: int,
    acc: Seq<Result<UseItemModel, AstInfoView>>,
    errors: Seq<Error>,
) -> Step<Seq<Result<UseItemModel, AstInfoView>>>
    decreases tokens.len() - pos, 3nat,
{
    if !within(tokens, pos) {
        Step { node: acc, end: pos, errors }
    } else if next_is(tokens, pos, TokenKind::Ident) {
        let item = spec_use_item(tokens, pos, errors);
        if pos < item.end <= tokens.len() {
            spec_item_list(tokens, item.end, acc.push(Ok(item.node)), item.errors)
        } else {
            Step { node: acc, end: pos, errors }
        }
    } else {
        match spec_skipped(tokens, pos, Sync::UseKind, errors) {
            Some(skipped) => if pos < skipped.end <= tokens.len() {
                spec_item_list(tokens, skipped.end, acc.push(Err(skipped.node)), skipped.errors)
            } else {
                Step { node: acc, end: pos, errors }
            },
            None => Step { node: acc, end: pos, errors },
        }
    }
}

/// The use at `pos`, where `use` is the next token: the keyword, the
/// name that is expected after it, and a body if one follows.
pub open spec fn spec_use(tokens: Seq<Token>, pos: int, errors: Seq<Error>) -> Step<UseModel> {
    let start = skip(tokens, pos);
    let name = spec_expected_ident(tokens, start + 1, errors);
    let (body, end, after) = match spec_use_body(tokens, name.end, name.errors) {
        Some(step) => (Some(step.node), step.end, step.errors),
        None => (None, name.end, name.errors),
    };
    Step {
        node: UseModel {
            use_kw: token_info(tokens, start),
            name: name.node,
            body,
            alias: None,
            info: info_from(tokens, pos, end),
        },
        end,
        errors: after,
    }
}

/// The definition or let at `pos`, where its keyword is the next token:
/// the keyword, the name that is expected after it, a type annotation if
/// there is one, and the `=` and the expression that are expected.
pub open spec fn spec_binding(tokens: Seq<Token>, pos: int, errors: Seq<Error>) -> Step<
    BindingModel,
> {
    let start = skip(tokens, pos);
    let name = spec_expected_ident(tokens, start + 1, errors);
    let annotation = spec_annotation(tokens, name.end, name.errors);
    let eq = spec_expected_token(
        tokens,
        annotation.end,
        TokenKind::Eq,
        ErrorMessage::ExpectedEQ,
        annotation.errors,
    );
    let expr = spec_expected_expr(tokens, eq.end, eq.errors);
    Step {
        node: BindingModel {
            keyword: token_info(tokens, start),
            name: name.node,
            colon: annotation.colon,
            type_expr: annotation.type_expr,
            eq: eq.node,
            expr: expr.node,
            info: info_from(tokens, pos, expr.end),
        },
        end: expr.end,
        errors: expr.errors,
    }
}

/// The global at `pos`, if one starts there: a use, a definition, a let
/// or an expression. Where none of these starts, the tokens up to the
/// next one that can start a global are skipped.
pub open spec fn spec_global(tokens: Seq<Token>, pos: int, errors: Seq<Error>) -> Option<
    Step<GlobalModel>,
> {
    if !within(tokens, pos) {
        None
    } else if next_is(tokens, pos, TokenKind::Use) {
        let u = spec_use(tokens, pos, errors);
        Some(Step { node: GlobalModel::Use(u.node), end: u.end, errors: u.errors })
    } else if next_is(tokens, pos, TokenKind::Def) {
        let d = spec_binding(tokens, pos, errors);
        Some(Step { node: GlobalModel::Def(d.node), end: d.end, errors: d.errors })
    } else if next_is(tokens, pos, TokenKind::Let) {
        let l = spec_binding(tokens, pos, errors);
        Some(Step { node: GlobalModel::Let(l.node), end: l.end, errors: l.errors })
    } else {
        match spec_expr(tokens, pos, errors) {
            Some(e) => Some(Step { node: GlobalModel::Init(e.node), end: e.end, errors: e.errors }),
            None => match spec_skipped(tokens, pos, Sync::Global, errors) {
                Some(skipped) => Some(
                    Step {
                        node: GlobalModel::Error(skipped.node),
                        end: skipped.end,
                        errors: skipped.errors,
                    },
                ),
                None => None,
            },
        }
    }
}

/// The globals from `pos` on.
pub open spec fn spec_globals(
    tokens: Seq<Token>,
    pos: int,
    acc: Seq<GlobalModel>,
    errors: Seq<Error>,
) -> Step<Seq<GlobalModel>>
    decreases tokens.len() - pos,
{
    match spec_global(tokens, pos, errors) {
        Some(global) => if pos < global.end <= tokens.len() {
            spec_globals(tokens, global.end, acc.push(global.node), global.errors)
        } else {
            Step { node: acc, end: pos, errors }
        },
        None => Step { node: acc, end: pos, errors },
    }
}

/// The syntax tree of the tokens and the errors of parsing them: the
/// globals, then the end of the input. Tokens after the end of the
/// input are an error.
pub open spec fn spec_parse(tokens: Seq<Token>) -> (AstModel, Seq<Error>) {
    let globals = spec_globals(tokens, skip(tokens, 0), Seq::empty(), Seq::empty());
    let eof = next_is(tokens, globals.end, TokenKind::Eof);
    let end = if eof {
        skip(tokens, globals.end) + 1
    } else {
        globals.end
    };
    (
        AstModel { globals: globals.node, info: info_from(tokens, 0, end) },
        if eof && end < tokens.len() {
            globals.errors.push(Error { message: ErrorMessage::TokensAfterEof, range: span(end, end) })
        } else {
            globals.errors
        },
    )
}

/// Whether a token is whitespace or a comment.
fn trivia(token: &Token) -> (r: bool)
    ensures
        r == is_trivia(token.token_type),
{
    match token.token_type.kind() {
        TokenKind::Whitespace | TokenKind::Comment => true,
        _ => false,
    }
}

/// The place of the first token from `pos` on that is neither whitespace
/// nor a comment.
fn skip_trivia(tokens: &[Token], pos: usize) -> (r: usize)
    requires
        pos <= tokens@.len(),
    ensures
        r == skip(tokens@, pos as int),
        pos <= r <= tokens@.len(),
{
    let mut i = pos;
    while i < tokens.len() && trivia(&tokens[i])
        invariant
            pos <= i <= tokens@.len(),
            skip(tokens@, pos as int) == skip(tokens@, i as int),
        decreases tokens@.len() - i,
    {
        i += 1;
    }
    i
}

/// The kind of the next token from `pos` on that is no whitespace and no
/// comment.
fn peek(tokens: &[Token], pos: usize) -> (r: Option<TokenKind>)
    requires
        pos <= tokens@.len(),
    ensures
        r.is_some() == (skip(tokens@, pos as int) < tokens@.len()),
        r matches Some(kind) ==> kind == tokens@[skip(tokens@, pos as int)].token_type.spec_kind(),
        forall|kind: TokenKind| r == Some(kind) <==> #[trigger] next_is(tokens@, pos as int, kind),
{
    let start = skip_trivia(tokens, pos);
    if start < tokens.len() {
        Some(tokens[start].token_type.kind())
    } else {
        None
    }
}

/// Whether the next token from `pos` on that is no whitespace and no
/// comment is of the kind.
fn is_next(tokens: &[Token], pos: usize, kind: TokenKind) -> (r: bool)
    requires
        pos <= tokens@.len(),
    ensures
        r == next_is(tokens@, pos as int, kind),
{
    match peek(tokens, pos) {
        Some(next) => next == kind,
        None => false,
    }
}

/// What a node carries that is parsed at `pos` and ends at `end`.
fn info(tokens: &[Token], pos: usize, end: usize) -> (r: AstInfo)
    requires
        pos <= tokens@.len(),
    ensures
        skip(tokens@, pos as int) <= end <= tokens@.len() ==> info_within(r, tokens@.len() as int),
        r.range.start == skip(tokens@, pos as int),
        r.range.end == end,
        r@ == info_from(tokens@, pos as int, end as int),
{
    let mut comments: Vec<String> = Vec::new();
    let mut i = pos;
    while i < tokens.len() && trivia(&tokens[i])
        invariant
            pos <= i <= tokens@.len(),
            skip(tokens@, pos as int) == skip(tokens@, i as int),
            Seq::new(comments@.len(), |k: int| comments@[k]@) == comments_between(
                tokens@,
                pos as int,
                i as int,
            ),
        decreases tokens@.len() - i,
    {
        let ghost before = Seq::new(comments@.len(), |k: int| comments@[k]@);
        match &tokens[i].token_type {
            TokenType::Comment(comment) => {
                comments.push(comment.clone());
                assert(Seq::new(comments@.len(), |k: int| comments@[k]@) =~= before.push(
                    comment@,
                ));
            },
            _ => {},
        }
        i += 1;
    }
    AstInfo::new(Prelude { comments, range: pos..i }, i..end)
}

/// What the token carries that is parsed at `pos`, and the place after
/// it.
fn token(tokens: &[Token], pos: usize) -> (r: (AstInfo, usize))
    requires
        pos <= tokens@.len(),
        skip(tokens@, pos as int) < tokens@.len(),
    ensures
        info_within(r.0, tokens@.len() as int),
        r.0.range.start == skip(tokens@, pos as int),
        r.0@ == token_info(tokens@, pos as int),
        r.1 == skip(tokens@, pos as int) + 1,
        pos < r.1 <= tokens@.len(),
{
    let n = tokens.len();
    let end = skip_trivia(tokens, pos) + 1;
    (info(tokens, pos, end), end)
}

/// The identifier at `pos`, and the place after it.
fn ident(tokens: &[Token], pos: usize) -> (r: (Ident, usize))
    requires
        pos <= tokens@.len(),
        skip(tokens@, pos as int) < tokens@.len(),
    ensures
        info_within(r.0.info, tokens@.len() as int),
        r.0.info.range.start == skip(tokens@, pos as int),
        r.0@ == spec_ident(tokens@, pos as int),
        r.1 == skip(tokens@, pos as int) + 1,
        pos < r.1 <= tokens@.len(),
{
    let start = skip_trivia(tokens, pos);
    let name = tokens[start].token_type.text();
    let (info, end) = token(tokens, pos);
    (Ident { name, info }, end)
}

/// Reports a piece that is missing at `pos`.
fn push_missing(errors: &mut Vec<Error>, message: ErrorMessage, pos: usize, Ghost(len): Ghost<int>)
    requires
        pos <= len,
        ranges_within(old(errors)@, len),
    ensures
        final(errors)@ == missing(old(errors)@, message, pos as int),
        ranges_within(final(errors)@, len),
{
    let at = if pos > 0 {
        pos - 1
    } else {
        0
    };
    errors.push(Error::new(message, at..at));
}

/// The identifier that is expected at `pos`, and the place after it.
fn expected_ident(tokens: &[Token], pos: usize, errors: &mut Vec<Error>) -> (r: (
    Option<Ident>,
    usize,
))
    requires
        ranges_within(old(errors)@, tokens@.len() as int),
        pos <= tokens@.len(),
    ensures
        ident_within(r.0, tokens@.len() as int),
        ranges_within(final(errors)@, tokens@.len() as int),
        ({
            let step = spec_expected_ident(tokens@, pos as int, old(errors)@);
            &&& crate::ast::model::ident_model(r.0) == step.node
            &&& r.1 == step.end
            &&& final(errors)@ == step.errors
        }),
        pos <= r.1 <= tokens@.len(),
{
    if is_next(tokens, pos, TokenKind::Ident) {
        let (name, end) = ident(tokens, pos);
        (Some(name), end)
    } else {
        push_missing(errors, ErrorMessage::ExpectedIdent, pos, Ghost(tokens@.len() as int));
        (None, pos)
    }
}

/// The token of a kind that is expected at `pos`, and the place after
/// it.
fn expected_token(
    tokens: &[Token],
    pos: usize,
    kind: TokenKind,
    message: ErrorMessage,
    errors: &mut Vec<Error>,
) -> (r: (Option<AstInfo>, usize))
    requires
        ranges_within(old(errors)@, tokens@.len() as int),
        pos <= tokens@.len(),
    ensures
        option_within(r.0, tokens@.len() as int),
        ranges_within(final(errors)@, tokens@.len() as int),
        ({
            let step = spec_expected_token(tokens@, pos as int, kind, message, old(errors)@);
            &&& crate::ast::model::info_model(r.0) == step.node
            &&& r.1 == step.end
            &&& final(errors)@ == step.errors
        }),
        pos <= r.1 <= tokens@.len(),
{
    if is_next(tokens, pos, kind) {
        let (info, end) = token(tokens, pos);
        (Some(info), end)
    } else {
        push_missing(errors, message, pos, Ghost(tokens@.len() as int));
        (None, pos)
    }
}

/// Whether a token of the set is in sight at `pos`.
fn in_sight(tokens: &[Token], pos: usize, sync: Sync) -> (r: bool)
    requires
        pos <= tokens@.len(),
    ensures
        r == at_sync(tokens@, pos as int, sync),
{
    match peek(tokens, pos) {
        None => true,
        Some(kind) => {
            let global = match kind {
                TokenKind::Use
                | TokenKind::Def
                | TokenKind::Let
                | TokenKind::LCurly
                | TokenKind::LBracket
                | TokenKind::Ident
                | TokenKind::Eof => true,
                _ => false,
            };
            match sync {
                Sync::Global => global,
                Sync::UseKind => global || (match kind {
                    TokenKind::Star | TokenKind::As | TokenKind::RCurly => true,
                    _ => false,
                }),
                Sync::Expr => global || (match kind {
                    TokenKind::Eq | TokenKind::RCurly | TokenKind::RBracket | TokenKind::As => true,
                    _ => false,
                }),
                Sync::StructField => global || (match kind {
                    TokenKind::Pipe
                    | TokenKind::Eq
                    | TokenKind::RCurly
                    | TokenKind::RBracket
                    | TokenKind::As => true,
                    _ => false,
                }),
            }
        },
    }
}

/// Skips the tokens at `pos` up to the next place at which a token of
/// the set is in sight, and reports them as unexpected. Skips nothing if
/// such a token is in sight at once.
fn skipped(tokens: &[Token], pos: usize, sync: Sync, errors: &mut Vec<Error>) -> (r: Option<
    (AstInfo, usize),
>)
    requires
        ranges_within(old(errors)@, tokens@.len() as int),
        pos <= tokens@.len(),
    ensures
        r matches Some((info, end)) ==> info_within(info, tokens@.len() as int),
        ranges_within(final(errors)@, tokens@.len() as int),
        r.is_some() == spec_skipped(tokens@, pos as int, sync, old(errors)@).is_some(),
        r is None ==> final(errors)@ == old(errors)@,
        r matches Some((info, end)) ==> ({
            let step = spec_skipped(tokens@, pos as int, sync, old(errors)@)->Some_0;
            &&& info@ == step.node
            &&& end == step.end
            &&& final(errors)@ == step.errors
            &&& pos < end <= tokens@.len()
        }),
{
    let start = skip_trivia(tokens, pos);
    proof {
        lemma_skip(tokens@, pos as int);
    }
    if in_sight(tokens, start, sync) {
        return None;
    }
    let n = tokens.len();
    let mut end = start + 1;
    while end < tokens.len() && !in_sight(tokens, end, sync)
        invariant
            start < end <= tokens@.len(),
            sync_point(tokens@, start + 1, sync) == sync_point(tokens@, end as int, sync),
        decreases tokens@.len() - end,
    {
        end += 1;
    }
    errors.push(Error::new(ErrorMessage::UnexpectedTokens, start..end));
    Some((info(tokens, pos, end), end))
}

/// The alias at `pos`, if there is one, and the place after it.
fn alias(tokens: &[Token], pos: usize) -> (r: (Option<Alias>, usize))
    requires
        pos <= tokens@.len(),
    ensures
        alias_within(r.0, tokens@.len() as int),
        crate::ast::model::alias_model(r.0) == spec_alias(tokens@, pos as int).node,
        r.1 == spec_alias(tokens@, pos as int).end,
        pos <= r.1 <= tokens@.len(),
{
    if !is_next(tokens, pos, TokenKind::As) {
        return (None, pos);
    }
    proof {
        lemma_skip(tokens@, pos as int);
    }
    let start = skip_trivia(tokens, pos);
    let (as_kw, after) = token(tokens, start);
    let (name, end) = if is_next(tokens, after, TokenKind::String) {
        let value = tokens[skip_trivia(tokens, after)].token_type.text();
        let (info, end) = token(tokens, after);
        (Some(AliasName::String(PrimitiveValue::new((value, info)))), end)
    } else if is_next(tokens, after, TokenKind::Ident) {
        let (name, end) = ident(tokens, after);
        (Some(AliasName::Ident(name)), end)
    } else {
        (None, after)
    };
    (Some(Alias { as_kw, name, info: info(tokens, pos, end) }), end)
}

/// The literal at `pos`, if there is one, and the place after it.
fn primitive(tokens: &[Token], pos: usize) -> (r: Option<(Primitive, usize)>)
    requires
        pos <= tokens@.len(),
    ensures
        r matches Some((p, end)) ==> p.within(tokens@.len() as int),
        r.is_some() == spec_primitive(tokens@, pos as int).is_some(),
        r matches Some((p, end)) ==> Some(p.model()) == spec_primitive(tokens@, pos as int) && end
            == skip(tokens@, pos as int) + 1 && pos < end <= tokens@.len(),
{
    match peek(tokens, pos) {
        Some(TokenKind::String) => {
            let value = tokens[skip_trivia(tokens, pos)].token_type.text();
            let (info, end) = token(tokens, pos);
            Some((Primitive::String(PrimitiveValue::new((value, info))), end))
        },
        Some(TokenKind::Char) => {
            let value = tokens[skip_trivia(tokens, pos)].token_type.text();
            let (info, end) = token(tokens, pos);
            Some((Primitive::Char(PrimitiveValue::new((value, info))), end))
        },
        Some(TokenKind::Number) => {
            let value = tokens[skip_trivia(tokens, pos)].token_type.text();
            let (info, end) = token(tokens, pos);
            Some((Primitive::Number(PrimitiveValue::new((value, info))), end))
        },
        Some(TokenKind::True) => {
            let (info, end) = token(tokens, pos);
            Some((Primitive::Bool(Bool::new_true(info)), end))
        },
        Some(TokenKind::False) => {
            let (info, end) = token(tokens, pos);
            Some((Primitive::Bool(Bool::new_false(info)), end))
        },
        Some(TokenKind::Null) => {
            let (info, end) = token(tokens, pos);
            Some((Primitive::Null(info), end))
        },
        _ => None,
    }
}

/// The inner names from `pos` on, and the place after them.
fn inner_names(tokens: &[Token], pos: usize, errors: &mut Vec<Error>) -> (r: (
    Vec<InnerName>,
    usize,
))
    requires
        ranges_within(old(errors)@, tokens@.len() as int),
        pos <= tokens@.len(),
    ensures
        forall|i: int|
            0 <= i < r.0@.len() ==> pos <= (#[trigger] r.0@[i]).info.range.end <= tokens@.len(),
        ranges_within(final(errors)@, tokens@.len() as int),
        ({
            let step = spec_inner_names(tokens@, pos as int, Seq::empty(), old(errors)@);
            &&& inner_models(r.0@) == step.node
            &&& r.1 == step.end
            &&& final(errors)@ == step.errors
        }),
        pos <= r.1 <= tokens@.len(),
{
    let mut names: Vec<InnerName> = Vec::new();
    let mut cur = pos;
    let ghost errors0 = errors@;
    proof {
        assert(inner_models(names@) =~= Seq::empty());
    }
    while is_next(tokens, cur, TokenKind::DoubleColon)
        invariant
            ranges_within(errors@, tokens@.len() as int),
            pos <= cur <= tokens@.len(),
            spec_inner_names(tokens@, pos as int, Seq::empty(), errors0) == spec_inner_names(
                tokens@,
                cur as int,
                inner_models(names@),
                errors@,
            ),
            forall|i: int|
                0 <= i < names@.len() ==> pos <= (#[trigger] names@[i]).info.range.end
                    <= tokens@.len(),
        decreases tokens@.len() - cur,
    {
        proof {
            lemma_skip(tokens@, cur as int);
        }
        let ghost before = inner_models(names@);
        let start = skip_trivia(tokens, cur);
        let (double_colon, after) = token(tokens, start);
        let (name, end) = expected_ident(tokens, after, errors);
        let inner = InnerName { double_colon, name, info: info(tokens, cur, end) };
        names.push(inner);
        assert(inner_models(names@) =~= before.push(inner@));
        cur = end;
    }
    (names, cur)
}

/// The expression that is expected at `pos`, and the place after it.
fn expected_expr(tokens: &[Token], pos: usize, errors: &mut Vec<Error>) -> (r: (
    Option<Expr>,
    usize,
))
    requires
        ranges_within(old(errors)@, tokens@.len() as int),
        pos <= tokens@.len(),
    ensures
        expr_within(r.0, tokens@.len() as int),
        ranges_within(final(errors)@, tokens@.len() as int),
        ({
            let step = spec_expected_expr(tokens@, pos as int, old(errors)@);
            &&& crate::ast::model::expr_model(r.0) == step.node
            &&& r.1 == step.end
            &&& final(errors)@ == step.errors
        }),
        pos <= r.1 <= tokens@.len(),
    decreases tokens@.len() - pos, 4nat,
{
    match parse_expr(tokens, pos, errors) {
        Some((expr, end)) => (Some(expr), end),
        None => {
            let at = skip_trivia(tokens, pos);
            push_missing(errors, ErrorMessage::ExpectedExpr, at, Ghost(tokens@.len() as int));
            (None, at)
        },
    }
}

/// The type annotation at `pos`, if there is one, and the place after
/// it.
fn annotation(tokens: &[Token], pos: usize, errors: &mut Vec<Error>) -> (r: (
    Option<AstInfo>,
    Option<Expr>,
    usize,
))
    requires
        ranges_within(old(errors)@, tokens@.len() as int),
        pos <= tokens@.len(),
    ensures
        expr_within(r.1, tokens@.len() as int),
        ranges_within(final(errors)@, tokens@.len() as int),
        ({
            let a = spec_annotation(tokens@, pos as int, old(errors)@);
            &&& crate::ast::model::info_model(r.0) == a.colon
            &&& crate::ast::model::expr_model(r.1) == a.type_expr
            &&& r.2 == a.end
            &&& final(errors)@ == a.errors
        }),
        pos <= r.2 <= tokens@.len(),
    decreases tokens@.len() - pos, 5nat,
{
    if is_next(tokens, pos, TokenKind::Colon) {
        proof {
            lemma_skip(tokens@, pos as int);
        }
        let (colon, after) = token(tokens, pos);
        let (type_expr, end) = expected_expr(tokens, after, errors);
        (Some(colon), type_expr, end)
    } else {
        (None, None, pos)
    }
}

/// The expression at `pos`, if one starts there, and the place after it.
fn parse_expr(tokens: &[Token], pos: usize, errors: &mut Vec<Error>) -> (r: Option<(Expr, usize)>)
    requires
        ranges_within(old(errors)@, tokens@.len() as int),
        pos <= tokens@.len(),
    ensures
        r matches Some((expr, end)) ==> expr.within(tokens@.len() as int),
        ranges_within(final(errors)@, tokens@.len() as int),
        r.is_some() == spec_expr(tokens@, pos as int, old(errors)@).is_some(),
        r is None ==> final(errors)@ == old(errors)@,
        r matches Some((expr, end)) ==> ({
            let step = spec_expr(tokens@, pos as int, old(errors)@)->Some_0;
            &&& expr.model() == step.node
            &&& end == step.end
            &&& final(errors)@ == step.errors
            &&& pos < end <= tokens@.len()
        }),
    decreases tokens@.len() - pos, 3nat,
{
    proof {
        lemma_skip(tokens@, pos as int);
    }
    let start = skip_trivia(tokens, pos);
    match parse_single(tokens, start, errors) {
        Some((single, single_end)) => {
            proof {
                lemma_skip(tokens@, single_end as int);
            }
            let first = skip_trivia(tokens, single_end);
            let ghost errors1 = errors@;
            let mut alternatives: Vec<UnionAlternative> = Vec::new();
            let mut cur = first;
            proof {
                assert(alternative_models(alternatives@) =~= Seq::empty());
            }
            while is_next(tokens, cur, TokenKind::Pipe)
                invariant
            ranges_within(errors@, tokens@.len() as int),
                    pos <= start < single_end <= first <= cur <= tokens@.len(),
                    spec_alternatives(tokens@, first as int, Seq::empty(), errors1)
                        == spec_alternatives(
                        tokens@,
                        cur as int,
                        alternative_models(alternatives@),
                        errors@,
                    ),
                    forall|i: int|
                        0 <= i < alternatives@.len() ==> (#[trigger] alternatives@[i]).within(
                            tokens@.len() as int,
                        ),
                decreases tokens@.len() - cur,
            {
                proof {
                    lemma_skip(tokens@, cur as int);
                }
                let ghost before = alternative_models(alternatives@);
                let at = skip_trivia(tokens, cur);
                let (pipe, after) = token(tokens, at);
                let (single, end) = match parse_single(tokens, after, errors) {
                    Some((single, end)) => (Some(single), end),
                    None => {
                        push_missing(errors, ErrorMessage::ExpectedSingle, after, Ghost(tokens@.len() as int));
                        (None, after)
                    },
                };
                let alternative = UnionAlternative { pipe, single, info: info(tokens, cur, end) };
                alternatives.push(alternative);
                assert(alternative_models(alternatives@) =~= before.push(alternative.model()));
                cur = end;
            }
            if alternatives.len() == 0 {
                Some((Expr::Single(single), cur))
            } else {
                let union = Union { single, alternatives, info: info(tokens, pos, cur) };
                proof {
                    lemma_union_model(union);
                }
                Some((Expr::Union(union), cur))
            }
        },
        None => match skipped(tokens, start, Sync::Expr, errors) {
            Some((info, end)) => Some((Expr::Error(info), end)),
            None => None,
        },
    }
}

/// The single expression at `pos`, if one starts there, and the place
/// after it.
fn parse_single(tokens: &[Token], pos: usize, errors: &mut Vec<Error>) -> (r: Option<
    (Single, usize),
>)
    requires
        ranges_within(old(errors)@, tokens@.len() as int),
        pos <= tokens@.len(),
    ensures
        r matches Some((single, end)) ==> single.within(tokens@.len() as int),
        ranges_within(final(errors)@, tokens@.len() as int),
        r.is_some() == spec_single(tokens@, pos as int, old(errors)@).is_some(),
        r is None ==> final(errors)@ == old(errors)@,
        r matches Some((single, end)) ==> ({
            let step = spec_single(tokens@, pos as int, old(errors)@)->Some_0;
            &&& single.model() == step.node
            &&& end == step.end
            &&& final(errors)@ == step.errors
            &&& pos < end <= tokens@.len()
        }),
    decreases tokens@.len() - pos, 2nat,
{
    match peek(tokens, pos) {
        Some(TokenKind::LCurly) => {
            let (s, end) = parse_struct(tokens, pos, errors);
            Some((Single::Struct(s), end))
        },
        Some(TokenKind::LBracket) => {
            let (l, end) = parse_list(tokens, pos, errors);
            Some((Single::List(l), end))
        },
        Some(TokenKind::Ident) => {
            let (n, end) = parse_named(tokens, pos, errors);
            Some((Single::Named(n), end))
        },
        _ => match primitive(tokens, pos) {
            Some((p, end)) => Some((Single::Primitive(p), end)),
            None => None,
        },
    }
}

/// The struct at `pos`, and the place after it.
fn parse_struct(tokens: &[Token], pos: usize, errors: &mut Vec<Error>) -> (r: (Struct, usize))
    requires
        ranges_within(old(errors)@, tokens@.len() as int),
        pos <= tokens@.len(),
        skip(tokens@, pos as int) < tokens@.len(),
    ensures
        r.0.within(tokens@.len() as int),
        ranges_within(final(errors)@, tokens@.len() as int),
        ({
            let step = spec_struct(tokens@, pos as int, old(errors)@);
            &&& r.0.model() == step.node
            &&& r.1 == step.end
            &&& final(errors)@ == step.errors
        }),
        pos < r.1 <= tokens@.len(),
    decreases tokens@.len() - pos, 1nat,
{
    proof {
        lemma_skip(tokens@, pos as int);
    }
    let start = skip_trivia(tokens, pos);
    let (lcurly, first) = token(tokens, start);
    let ghost errors0 = errors@;
    let mut fields: Vec<Result<StructField, StructFieldError>> = Vec::new();
    let mut cur = first;
    proof {
        assert(field_models(fields@) =~= Seq::empty());
    }
    loop
        invariant
            forall|i: int| 0 <= i < fields@.len() ==> field_within(#[trigger] fields@[i], tokens@.len() as int),
            ranges_within(errors@, tokens@.len() as int),
            pos <= start < first <= cur <= tokens@.len(),
            first == start + 1,
            spec_fields(tokens@, first as int, Seq::empty(), errors0) == spec_fields(
                tokens@,
                cur as int,
                field_models(fields@),
                errors@,
            ),
        ensures
            forall|i: int| 0 <= i < fields@.len() ==> field_within(#[trigger] fields@[i], tokens@.len() as int),
            ranges_within(errors@, tokens@.len() as int),
            pos <= start < first <= cur <= tokens@.len(),
            spec_fields(tokens@, first as int, Seq::empty(), errors0) == (Step {
                node: field_models(fields@),
                end: cur as int,
                errors: errors@,
            }),
        decreases tokens@.len() - cur,
    {
        let ghost before = field_models(fields@);
        if is_next(tokens, cur, TokenKind::Ident) {
            let (field, end) = parse_field(tokens, cur, errors);
            fields.push(Ok(field));
            assert(field_models(fields@) =~= before.push(Ok(field.model())));
            cur = end;
        } else {
            match skipped(tokens, cur, Sync::StructField, errors) {
                Some((info, end)) => {
                    fields.push(Err(StructFieldError { info }));
                    assert(field_models(fields@) =~= before.push(Err(info@)));
                    cur = end;
                },
                None => {
                    break ;
                },
            }
        }
    }
    let (rcurly, end) = expected_token(
        tokens,
        cur,
        TokenKind::RCurly,
        ErrorMessage::MissingClosingCurly,
        errors,
    );
    let s = Struct { lcurly, fields, rcurly, info: info(tokens, pos, end) };
    proof {
        lemma_struct_model(s);
    }
    (s, end)
}

/// The field at `pos`, and the place after it.
fn parse_field(tokens: &[Token], pos: usize, errors: &mut Vec<Error>) -> (r: (StructField, usize))
    requires
        ranges_within(old(errors)@, tokens@.len() as int),
        pos <= tokens@.len(),
        skip(tokens@, pos as int) < tokens@.len(),
    ensures
        r.0.within(tokens@.len() as int),
        ranges_within(final(errors)@, tokens@.len() as int),
        ({
            let step = spec_field(tokens@, pos as int, old(errors)@);
            &&& r.0.model() == step.node
            &&& r.1 == step.end
            &&& final(errors)@ == step.errors
        }),
        pos < r.1 <= tokens@.len(),
    decreases tokens@.len() - pos, 1nat,
{
    proof {
        lemma_skip(tokens@, pos as int);
    }
    let start = skip_trivia(tokens, pos);
    let (name, after) = ident(tokens, start);
    let (colon, type_expr, annotated) = annotation(tokens, after, errors);
    proof {
        lemma_skip(tokens@, annotated as int);
    }
    let (eq, expr, valued) = if is_next(tokens, annotated, TokenKind::Eq) {
        let (eq, next) = token(tokens, annotated);
        let (expr, end) = expected_expr(tokens, next, errors);
        (Some(eq), expr, end)
    } else {
        (None, None, annotated)
    };
    let (alias, end) = alias(tokens, valued);
    (
        StructField { name, colon, type_expr, eq, expr, alias, info: info(tokens, pos, end) },
        end,
    )
}

/// The list at `pos`, and the place after it.
fn parse_list(tokens: &[Token], pos: usize, errors: &mut Vec<Error>) -> (r: (List, usize))
    requires
        ranges_within(old(errors)@, tokens@.len() as int),
        pos <= tokens@.len(),
        skip(tokens@, pos as int) < tokens@.len(),
    ensures
        r.0.within(tokens@.len() as int),
        ranges_within(final(errors)@, tokens@.len() as int),
        ({
            let step = spec_list(tokens@, pos as int, old(errors)@);
            &&& r.0.model() == step.node
            &&& r.1 == step.end
            &&& final(errors)@ == step.errors
        }),
        pos < r.1 <= tokens@.len(),
    decreases tokens@.len() - pos, 1nat,
{
    proof {
        lemma_skip(tokens@, pos as int);
    }
    let start = skip_trivia(tokens, pos);
    let (lbracket, first) = token(tokens, start);
    let ghost errors0 = errors@;
    let mut exprs: Vec<Expr> = Vec::new();
    let mut cur = first;
    proof {
        assert(expr_models(exprs@) =~= Seq::empty());
    }
    loop
        invariant
            forall|i: int| 0 <= i < exprs@.len() ==> (#[trigger] exprs@[i]).within(tokens@.len() as int),
            ranges_within(errors@, tokens@.len() as int),
            pos <= start < first <= cur <= tokens@.len(),
            first == start + 1,
            spec_exprs(tokens@, first as int, Seq::empty(), errors0) == spec_exprs(
                tokens@,
                cur as int,
                expr_models(exprs@),
                errors@,
            ),
        ensures
            forall|i: int| 0 <= i < exprs@.len() ==> (#[trigger] exprs@[i]).within(tokens@.len() as int),
            ranges_within(errors@, tokens@.len() as int),
            pos <= start < first <= cur <= tokens@.len(),
            spec_exprs(tokens@, first as int, Seq::empty(), errors0) == (Step {
                node: expr_models(exprs@),
                end: cur as int,
                errors: errors@,
            }),
        decreases tokens@.len() - cur,
    {
        let ghost before = expr_models(exprs@);
        match parse_expr(tokens, cur, errors) {
            Some((expr, end)) => {
                exprs.push(expr);
                assert(expr_models(exprs@) =~= before.push(expr.model()));
                cur = end;
            },
            None => {
                break ;
            },
        }
    }
    let (rbracket, end) = expected_token(
        tokens,
        cur,
        TokenKind::RBracket,
        ErrorMessage::MissingClosingBracket,
        errors,
    );
    let l = List { lbracket, exprs, rbracket, info: info(tokens, pos, end) };
    proof {
        lemma_list_model(l);
    }
    (l, end)
}

/// The name at `pos`, and the place after it.
fn parse_named(tokens: &[Token], pos: usize, errors: &mut Vec<Error>) -> (r: (Named, usize))
    requires
        ranges_within(old(errors)@, tokens@.len() as int),
        pos <= tokens@.len(),
        skip(tokens@, pos as int) < tokens@.len(),
    ensures
        r.0.within(tokens@.len() as int),
        ranges_within(final(errors)@, tokens@.len() as int),
        ({
            let step = spec_named(tokens@, pos as int, old(errors)@);
            &&& r.0.model() == step.node
            &&& r.1 == step.end
            &&& final(errors)@ == step.errors
        }),
        pos < r.1 <= tokens@.len(),
    decreases tokens@.len() - pos, 1nat,
{
    proof {
        lemma_skip(tokens@, pos as int);
    }
    let start = skip_trivia(tokens, pos);
    let (name, after) = ident(tokens, start);
    let (inner_names, named) = inner_names(tokens, after, errors);
    let (expr, end) = match peek(tokens, named) {
        Some(TokenKind::LCurly) => {
            let (s, end) = parse_struct(tokens, named, errors);
            (Some(StructOrList::Struct(s)), end)
        },
        Some(TokenKind::LBracket) => {
            let (l, end) = parse_list(tokens, named, errors);
            (Some(StructOrList::List(l)), end)
        },
        _ => (None, named),
    };
    (Named { name, inner_names, expr, info: info(tokens, pos, end) }, end)
}

/// The body of a use or of an item at `pos`, if there is one, and the
/// place after it.
fn parse_use_body(tokens: &[Token], pos: usize, errors: &mut Vec<Error>) -> (r: Option<
    (UseBody, usize),
>)
    requires
        ranges_within(old(errors)@, tokens@.len() as int),
        pos <= tokens@.len(),
    ensures
        r matches Some((body, end)) ==> body.within(tokens@.len() as int),
        ranges_within(final(errors)@, tokens@.len() as int),
        r.is_some() == spec_use_body(tokens@, pos as int, old(errors)@).is_some(),
        r is None ==> final(errors)@ == old(errors)@,
        r matches Some((body, end)) ==> ({
            let step = spec_use_body(tokens@, pos as int, old(errors)@)->Some_0;
            &&& body.model() == step.node
            &&& end == step.end
            &&& final(errors)@ == step.errors
            &&& pos < end <= tokens@.len()
        }),
    decreases tokens@.len() - pos, 1nat,
{
    if !is_next(tokens, pos, TokenKind::DoubleColon) {
        return None;
    }
    proof {
        lemma_skip(tokens@, pos as int);
    }
    let start = skip_trivia(tokens, pos);
    let (double_colon, after) = token(tokens, start);
    proof {
        lemma_skip(tokens@, after as int);
    }
    let (kind, end) = match parse_use_kind(tokens, after, errors) {
        Some((kind, end)) => (Some(kind), end),
        None => {
            let at = skip_trivia(tokens, after);
            push_missing(errors, ErrorMessage::ExpectedUseKind, at, Ghost(tokens@.len() as int));
            (None, at)
        },
    };
    Some((UseBody { double_colon, kind, info: info(tokens, pos, end) }, end))
}

/// What is used at `pos`, if anything starts there, and the place after
/// it.
fn parse_use_kind(tokens: &[Token], pos: usize, errors: &mut Vec<Error>) -> (r: Option<
    (UseKind, usize),
>)
    requires
        ranges_within(old(errors)@, tokens@.len() as int),
        pos <= tokens@.len(),
    ensures
        r matches Some((kind, end)) ==> kind.within(tokens@.len() as int),
        ranges_within(final(errors)@, tokens@.len() as int),
        r.is_some() == spec_use_kind(tokens@, pos as int, old(errors)@).is_some(),
        r is None ==> final(errors)@ == old(errors)@,
        r matches Some((kind, end)) ==> ({
            let step = spec_use_kind(tokens@, pos as int, old(errors)@)->Some_0;
            &&& kind.model() == step.node
            &&& end == step.end
            &&& final(errors)@ == step.errors
            &&& pos < end <= tokens@.len()
        }),
    decreases tokens@.len() - pos, 3nat,
{
    match peek(tokens, pos) {
        Some(TokenKind::Star) => {
            let (info, end) = token(tokens, pos);
            Some((UseKind::All(info), end))
        },
        Some(TokenKind::Ident) => {
            let (item, end) = parse_use_item(tokens, pos, errors);
            Some((UseKind::Single(item), end))
        },
        Some(TokenKind::LCurly) => {
            let (items, end) = parse_use_items(tokens, pos, errors);
            Some((UseKind::Multiple(items), end))
        },
        _ => match skipped(tokens, pos, Sync::UseKind, errors) {
            Some((info, end)) => Some((UseKind::Error(info), end)),
            None => None,
        },
    }
}

/// The item at `pos`, and the place after it.
fn parse_use_item(tokens: &[Token], pos: usize, errors: &mut Vec<Error>) -> (r: (UseItem, usize))
    requires
        ranges_within(old(errors)@, tokens@.len() as int),
        pos <= tokens@.len(),
        skip(tokens@, pos as int) < tokens@.len(),
    ensures
        r.0.within(tokens@.len() as int),
        ranges_within(final(errors)@, tokens@.len() as int),
        ({
            let step = spec_use_item(tokens@, pos as int, old(errors)@);
            &&& r.0.model() == step.node
            &&& r.1 == step.end
            &&& final(errors)@ == step.errors
        }),
        pos < r.1 <= tokens@.len(),
    decreases tokens@.len() - pos, 2nat,
{
    proof {
        lemma_skip(tokens@, pos as int);
    }
    let start = skip_trivia(tokens, pos);
    let (name, after) = ident(tokens, start);
    let (body, bodied) = match parse_use_body(tokens, after, errors) {
        Some((body, end)) => (Some(Box::new(body)), end),
        None => (None, after),
    };
    let (alias, end) = alias(tokens, bodied);
    (UseItem { name, body, alias, info: info(tokens, pos, end) }, end)
}

/// The items between braces at `pos`, and the place after them.
fn parse_use_items(tokens: &[Token], pos: usize, errors: &mut Vec<Error>) -> (r: (
    UseItems,
    usize,
))
    requires
        ranges_within(old(errors)@, tokens@.len() as int),
        pos <= tokens@.len(),
        skip(tokens@, pos as int) < tokens@.len(),
    ensures
        r.0.within(tokens@.len() as int),
        ranges_within(final(errors)@, tokens@.len() as int),
        ({
            let step = spec_use_items(tokens@, pos as int, old(errors)@);
            &&& r.0.model() == step.node
            &&& r.1 == step.end
            &&& final(errors)@ == step.errors
        }),
        pos < r.1 <= tokens@.len(),
    decreases tokens@.len() - pos, 2nat,
{
    proof {
        lemma_skip(tokens@, pos as int);
    }
    let start = skip_trivia(tokens, pos);
    let (lcurly, first) = token(tokens, start);
    let ghost errors0 = errors@;
    let mut items: Vec<Result<UseItem, UseItemError>> = Vec::new();
    let mut cur = first;
    proof {
        assert(item_models(items@) =~= Seq::empty());
    }
    loop
        invariant
            forall|i: int| 0 <= i < items@.len() ==> item_within(#[trigger] items@[i], tokens@.len() as int),
            ranges_within(errors@, tokens@.len() as int),
            pos <= start < first <= cur <= tokens@.len(),
            first == start + 1,
            spec_item_list(tokens@, first as int, Seq::empty(), errors0) == spec_item_list(
                tokens@,
                cur as int,
                item_models(items@),
                errors@,
            ),
        ensures
            forall|i: int| 0 <= i < items@.len() ==> item_within(#[trigger] items@[i], tokens@.len() as int),
            ranges_within(errors@, tokens@.len() as int),
            pos <= start < first <= cur <= tokens@.len(),
            spec_item_list(tokens@, first as int, Seq::empty(), errors0) == (Step {
                node: item_models(items@),
                end: cur as int,
                errors: errors@,
            }),
        decreases tokens@.len() - cur,
    {
        let ghost before = item_models(items@);
        if is_next(tokens, cur, TokenKind::Ident) {
            let (item, end) = parse_use_item(tokens, cur, errors);
            items.push(Ok(item));
            assert(item_models(items@) =~= before.push(Ok(item.model())));
            cur = end;
        } else {
            match skipped(tokens, cur, Sync::UseKind, errors) {
                Some((info, end)) => {
                    items.push(Err(UseItemError { info }));
                    assert(item_models(items@) =~= before.push(Err(info@)));
                    cur = end;
                },
                None => {
                    break ;
                },
            }
        }
    }
    proof {
        lemma_skip(tokens@, cur as int);
    }
    let (rcurly, end) = if is_next(tokens, cur, TokenKind::RCurly) {
        let (info, end) = token(tokens, cur);
        (Some(info), end)
    } else {
        let at = skip_trivia(tokens, cur);
        push_missing(errors, ErrorMessage::MissingClosingCurly, at, Ghost(tokens@.len() as int));
        (None, at)
    };
    let items = UseItems { lcurly, items, rcurly, info: info(tokens, pos, end) };
    proof {
        lemma_items_model(items);
    }
    (items, end)
}

/// The use at `pos`, and the place after it.
fn parse_use(tokens: &[Token], pos: usize, errors: &mut Vec<Error>) -> (r: (Use, usize))
    requires
        ranges_within(old(errors)@, tokens@.len() as int),
        pos <= tokens@.len(),
        skip(tokens@, pos as int) < tokens@.len(),
    ensures
        r.0.within(tokens@.len() as int),
        ranges_within(final(errors)@, tokens@.len() as int),
        ({
            let step = spec_use(tokens@, pos as int, old(errors)@);
            &&& r.0@ == step.node
            &&& r.1 == step.end
            &&& final(errors)@ == step.errors
        }),
        pos < r.1 <= tokens@.len(),
{
    proof {
        lemma_skip(tokens@, pos as int);
    }
    let start = skip_trivia(tokens, pos);
    let (use_kw, after) = token(tokens, start);
    let (name, named) = expected_ident(tokens, after, errors);
    let (body, end) = match parse_use_body(tokens, named, errors) {
        Some((body, end)) => (Some(body), end),
        None => (None, named),
    };
    (Use { use_kw, name, body, alias: None, info: info(tokens, pos, end) }, end)
}

/// The parts of a definition or of a let at `pos`, and the place after
/// them.
fn parse_binding(tokens: &[Token], pos: usize, errors: &mut Vec<Error>) -> (r: (
    (AstInfo, Option<Ident>, Option<AstInfo>, Option<Expr>, Option<AstInfo>, Option<Expr>, AstInfo),
    usize,
))
    requires
        ranges_within(old(errors)@, tokens@.len() as int),
        pos <= tokens@.len(),
        skip(tokens@, pos as int) < tokens@.len(),
    ensures
        info_within(r.0.6, tokens@.len() as int),
        ident_within(r.0.1, tokens@.len() as int),
        expr_within(r.0.3, tokens@.len() as int),
        expr_within(r.0.5, tokens@.len() as int),
        ranges_within(final(errors)@, tokens@.len() as int),
        ({
            let step = spec_binding(tokens@, pos as int, old(errors)@);
            &&& r.0.0@ == step.node.keyword
            &&& crate::ast::model::ident_model(r.0.1) == step.node.name
            &&& crate::ast::model::info_model(r.0.2) == step.node.colon
            &&& crate::ast::model::expr_model(r.0.3) == step.node.type_expr
            &&& crate::ast::model::info_model(r.0.4) == step.node.eq
            &&& crate::ast::model::expr_model(r.0.5) == step.node.expr
            &&& r.0.6@ == step.node.info
            &&& r.1 == step.end
            &&& final(errors)@ == step.errors
        }),
        pos < r.1 <= tokens@.len(),
{
    proof {
        lemma_skip(tokens@, pos as int);
    }
    let start = skip_trivia(tokens, pos);
    let (keyword, after) = token(tokens, start);
    let (name, named) = expected_ident(tokens, after, errors);
    let (colon, type_expr, annotated) = annotation(tokens, named, errors);
    let (eq, equated) = expected_token(
        tokens,
        annotated,
        TokenKind::Eq,
        ErrorMessage::ExpectedEQ,
        errors,
    );
    let (expr, end) = expected_expr(tokens, equated, errors);
    ((keyword, name, colon, type_expr, eq, expr, info(tokens, pos, end)), end)
}

/// The global at `pos`, if one starts there, and the place after it.
fn parse_global(tokens: &[Token], pos: usize, errors: &mut Vec<Error>) -> (r: Option<
    (Global, usize),
>)
    requires
        ranges_within(old(errors)@, tokens@.len() as int),
        pos <= tokens@.len(),
    ensures
        r matches Some((global, end)) ==> global.within(tokens@.len() as int),
        ranges_within(final(errors)@, tokens@.len() as int),
        r.is_some() == spec_global(tokens@, pos as int, old(errors)@).is_some(),
        r is None ==> final(errors)@ == old(errors)@,
        r matches Some((global, end)) ==> ({
            let step = spec_global(tokens@, pos as int, old(errors)@)->Some_0;
            &&& global@ == step.node
            &&& end == step.end
            &&& final(errors)@ == step.errors
            &&& pos < end <= tokens@.len()
        }),
{
    match peek(tokens, pos) {
        Some(TokenKind::Use) => {
            let (u, end) = parse_use(tokens, pos, errors);
            Some((Global::Use(u), end))
        },
        Some(TokenKind::Def) => {
            let ((def_kw, name, colon, type_expr, eq, expr, info), end) = parse_binding(
                tokens,
                pos,
                errors,
            );
            Some((Global::Def(Def { def_kw, name, colon, type_expr, eq, expr, info }), end))
        },
        Some(TokenKind::Let) => {
            let ((let_kw, name, colon, type_expr, eq, expr, info), end) = parse_binding(
                tokens,
                pos,
                errors,
            );
            Some((Global::Let(Let { let_kw, name, colon, type_expr, eq, expr, info }), end))
        },
        _ => match parse_expr(tokens, pos, errors) {
            Some((expr, end)) => Some((Global::Init(expr), end)),
            None => match skipped(tokens, pos, Sync::Global, errors) {
                Some((info, end)) => Some((Global::Error(info), end)),
                None => None,
            },
        },
    }
}

/// The globals from `pos` on, and the place after them.
fn parse_globals(tokens: &[Token], pos: usize, errors: &mut Vec<Error>) -> (r: (
    Vec<Global>,
    usize,
))
    requires
        ranges_within(old(errors)@, tokens@.len() as int),
        pos <= tokens@.len(),
    ensures
        globals_within(r.0@, tokens@.len() as int),
        ranges_within(final(errors)@, tokens@.len() as int),
        ({
            let step = spec_globals(tokens@, pos as int, Seq::empty(), old(errors)@);
            &&& global_models(r.0@) == step.node
            &&& r.1 == step.end
            &&& final(errors)@ == step.errors
        }),
        pos <= r.1 <= tokens@.len(),
{
    let ghost errors0 = errors@;
    let mut globals: Vec<Global> = Vec::new();
    let mut cur = pos;
    proof {
        assert(global_models(globals@) =~= Seq::empty());
    }
    loop
        invariant
            forall|i: int| 0 <= i < globals@.len() ==> (#[trigger] globals@[i]).within(tokens@.len() as int),
            ranges_within(errors@, tokens@.len() as int),
            pos <= cur <= tokens@.len(),
            spec_globals(tokens@, pos as int, Seq::empty(), errors0) == spec_globals(
                tokens@,
                cur as int,
                global_models(globals@),
                errors@,
            ),
        ensures
            forall|i: int| 0 <= i < globals@.len() ==> (#[trigger] globals@[i]).within(tokens@.len() as int),
            ranges_within(errors@, tokens@.len() as int),
            pos <= cur <= tokens@.len(),
            spec_globals(tokens@, pos as int, Seq::empty(), errors0) == (Step {
                node: global_models(globals@),
                end: cur as int,
                errors: errors@,
            }),
        decreases tokens@.len() - cur,
    {
        let ghost before = global_models(globals@);
        match parse_global(tokens, cur, errors) {
            Some((global, end)) => {
                globals.push(global);
                assert(global_models(globals@) =~= before.push(global@));
                cur = end;
            },
            None => {
                break ;
            },
        }
    }
    (globals, cur)
}

/// Parses the tokens and returns the syntax tree and the errors found.
/// Whatever the tokens are, there is a tree: what cannot be parsed is
/// reported and skipped.
pub fn parse(input: &[Token]) -> (r: (Ast, Vec<Error>))
    ensures
        (r.0@, r.1@) == spec_parse(input@),
        ranges_within(r.1@, input@.len() as int),
        info_within(r.0.info, input@.len() as int),
        globals_within(r.0.globals@, input@.len() as int),
{
    let mut errors: Vec<Error> = Vec::new();
    let n = input.len();
    let first = skip_trivia(input, 0);
    assert(ranges_within(errors@, n as int));
    let (globals, cur) = parse_globals(input, first, &mut errors);
    proof {
        lemma_skip(input@, cur as int);
    }
    let end = if is_next(input, cur, TokenKind::Eof) {
        let end = skip_trivia(input, cur) + 1;
        let (rest, _) = TokenStream::new(input).take_split(end);
        if rest.input_len() > 0 {
            let offset = rest.location_offset();
            errors.push(Error::new(ErrorMessage::TokensAfterEof, offset..offset));
        }
        end
    } else {
        cur
    };
    (Ast { globals, info: info(input, 0, end) }, errors)
}

} // verus!
