//! Use resolution: which local name stands for which global path.

use crate::ast::{Global, Use, UseBody, UseItem, UseItemError, UseKind};
use crate::ast::bounds::{globals_within, item_within, range_within};
use crate::semantics::error::{
    errors_model, errors_within, views_within, Error, ErrorMessage, ErrorMessageView, ErrorView,
};
use crate::semantics::{names_model, Errors, NameMap, Namespace};
use crate::table::{holds, keyed};
use crate::token::TokenRange;
use crate::{strings_model, GlobalIdent, ModuleAst};
use crate::token::ToTokenRange;
use vstd::prelude::*;
use vstd::string::*;

verus! {

/// The feature that a glob import asks for.
pub const GLOB_IMPORT: &'static str = "glob import";

/// The names `names` with those of `new` folded in, one after the
/// other: a name that is held already is reported as a duplicate at
/// `range`, and the first definition stays.
pub open spec fn spec_fold_names(
    names: NameMap,
    errors: Seq<ErrorView>,
    range: TokenRange,
    new: NameMap,
) -> (NameMap, Seq<ErrorView>)
    decreases new.len(),
{
    if new.len() == 0 {
        (names, errors)
    } else {
        let (n, e) = spec_fold_names(names, errors, range, new.drop_last());
        let entry = new.last();
        if holds(n, entry.0) {
            (n, e.push(ErrorView { message: ErrorMessageView::DuplicateUse(entry.0), range }))
        } else {
            (n.push(entry), e)
        }
    }
}

/// One more use folded into what was collected: first its names, then
/// its own errors.
pub open spec fn spec_fold_uses(
    acc: (NameMap, Seq<ErrorView>),
    range: TokenRange,
    new: (NameMap, Seq<ErrorView>),
) -> (NameMap, Seq<ErrorView>) {
    let (names, errors) = spec_fold_names(acc.0, acc.1, range, new.0);
    (names, errors + new.1)
}

/// What an item contributes below the path `stack`: a terminal item its
/// local name with the path down to it, any other item what its body
/// contributes. An alias on an item whose body is no single item is an
/// error.
pub open spec fn spec_item(item: UseItem, stack: Seq<Seq<char>>) -> (NameMap, Seq<ErrorView>)
    decreases item,
{
    let path = stack.push(item.name.name@);
    match item.body {
        Some(body) => {
            let (names, errors, single) = spec_body(*body, path);
            if !single && item.alias is Some {
                (
                    names,
                    errors.push(
                        ErrorView {
                            message: ErrorMessageView::AliasingNonSingle,
                            range: item.alias->Some_0.info.range,
                        },
                    ),
                )
            } else {
                (names, errors)
            }
        },
        None => (seq![(item.spec_identifier().name@, path)], Seq::empty()),
    }
}

/// What a body contributes below the path `stack`, and whether it is a
/// single item.
pub open spec fn spec_body(body: UseBody, stack: Seq<Seq<char>>) -> (
    NameMap,
    Seq<ErrorView>,
    bool,
)
    decreases body,
{
    match body.kind {
        None => (Seq::empty(), Seq::empty(), false),
        Some(UseKind::All(info)) => (
            Seq::empty(),
            seq![
                ErrorView {
                    message: ErrorMessageView::Unsupported(GLOB_IMPORT@),
                    range: info.range,
                },
            ],
            false,
        ),
        Some(UseKind::Single(item)) => {
            let (names, errors) = spec_item(item, stack);
            (names, errors, true)
        },
        Some(UseKind::Multiple(items)) => {
            let (names, errors) = spec_items(items.items@, stack);
            (names, errors, false)
        },
        Some(UseKind::Error(_)) => (Seq::empty(), Seq::empty(), false),
    }
}

/// What the items between braces contribute, folded from left to right.
pub open spec fn spec_items(items: Seq<Result<UseItem, UseItemError>>, stack: Seq<Seq<char>>) -> (
    NameMap,
    Seq<ErrorView>,
)
    decreases items,
{
    if items.len() == 0 {
        (Seq::empty(), Seq::empty())
    } else {
        let acc = spec_items(items.drop_last(), stack);
        match items.last() {
            Ok(item) => spec_fold_uses(acc, item.info.range, spec_item(item, stack)),
            Err(_) => acc,
        }
    }
}

/// What one use statement contributes.
pub open spec fn spec_use(u: Use) -> (NameMap, Seq<ErrorView>) {
    match (u.name, u.body) {
        (Some(root), Some(body)) => {
            let (names, errors, _) = spec_body(body, seq![root.name@]);
            (names, errors)
        },
        (Some(root), None) => (
            seq![(u.spec_identifier()->Some_0.name@, seq![root.name@])],
            Seq::empty(),
        ),
        _ => (Seq::empty(), Seq::empty()),
    }
}

/// What the use statements among the globals contribute, folded from
/// first to last.
pub open spec fn spec_uses(globals: Seq<Global>) -> (NameMap, Seq<ErrorView>)
    decreases globals.len(),
{
    if globals.len() == 0 {
        (Seq::empty(), Seq::empty())
    } else {
        let acc = spec_uses(globals.drop_last());
        match globals.last() {
            Global::Use(u) => spec_fold_uses(acc, u.info.range, spec_use(u)),
            _ => acc,
        }
    }
}

/// Analyzes the use statements of a module: the names they bring into
/// scope, each with its global path, and the errors found.
pub fn analyze(module_ast: &ModuleAst) -> (r: (Namespace, Errors))
    ensures
        (names_model(r.0.entries@), errors_model(r.1@)) == spec_uses(module_ast.ast.globals@),
        r.0.wf(),
        forall|n: int| #[trigger]
            globals_within(module_ast.ast.globals@, n) ==> errors_within(r.1@, n),
{
    proof {
        assert forall|n: int| #[trigger]
            globals_within(module_ast.ast.globals@, n) implies views_within(
            spec_uses(module_ast.ast.globals@).1,
            n,
        ) by {
            lemma_uses_within(module_ast.ast.globals@, n);
        }
    }
    let mut acc: (Namespace, Errors) = (Namespace::new(), Vec::new());
    let globals = &module_ast.ast.globals;
    let mut i: usize = 0;
    proof {
        assert(globals@.take(0) =~= Seq::empty());
        assert(names_model(acc.0.entries@) =~= Seq::empty());
        assert(errors_model(acc.1@) =~= Seq::empty());
    }
    while i < globals.len()
        invariant
            i <= globals@.len(),
            (names_model(acc.0.entries@), errors_model(acc.1@)) == spec_uses(
                globals@.take(i as int),
            ),
            acc.0.wf(),
        decreases globals@.len() - i,
    {
        proof {
            assert(globals@.take(i + 1).drop_last() =~= globals@.take(i as int));
            assert(globals@.take(i + 1).last() == globals@[i as int]);
        }
        match &globals[i] {
            Global::Use(u) => {
                let new = analyze_use(u);
                acc = fold_uses(acc, &u.info.range, new);
            },
            _ => {},
        }
        i += 1;
    }
    proof {
        assert(globals@.take(i as int) =~= globals@);
    }
    acc
}

/// The namespace that holds one name.
fn single_name(name: String, ident: GlobalIdent) -> (r: Namespace)
    ensures
        names_model(r.entries@) == seq![(name@, ident@)],
        r.wf(),
{
    let mut names = Namespace::new();
    names.insert_new(name, ident);
    assert(names_model(names.entries@) =~= seq![(name@, ident@)]);
    names
}

/// Folds the names and errors of one use into what was collected. A name
/// that is used twice is reported as a duplicate, at `range`.
fn fold_uses(acc: (Namespace, Errors), range: &TokenRange, new: (Namespace, Errors)) -> (r: (
    Namespace,
    Errors,
))
    requires
        acc.0.wf(),
    ensures
        (names_model(r.0.entries@), errors_model(r.1@)) == spec_fold_uses(
            (names_model(acc.0.entries@), errors_model(acc.1@)),
            *range,
            (names_model(new.0.entries@), errors_model(new.1@)),
        ),
        r.0.wf(),
{
    let (mut idents, mut errors) = acc;
    let (new_idents, mut new_errors) = new;
    let ghost names0 = names_model(idents.entries@);
    let ghost errors0 = errors_model(errors@);
    let ghost new_names = names_model(new_idents.entries@);
    let mut i: usize = 0;
    proof {
        assert(new_names.take(0) =~= Seq::empty());
    }
    while i < new_idents.entries.len()
        invariant
            i <= new_idents.entries@.len(),
            new_names == names_model(new_idents.entries@),
            (names_model(idents.entries@), errors_model(errors@)) == spec_fold_names(
                names0,
                errors0,
                *range,
                new_names.take(i as int),
            ),
            idents.wf(),
        decreases new_idents.entries@.len() - i,
    {
        proof {
            assert(new_names.take(i + 1).drop_last() =~= new_names.take(i as int));
            assert(new_names.take(i + 1).last() == new_names[i as int]);
        }
        let ghost before = names_model(idents.entries@);
        let ghost errors_before = errors_model(errors@);
        let key = new_idents.entries[i].0.clone();
        let value = new_idents.entries[i].1.duplicate();
        proof {
            lemma_names_hold(idents.entries@, key@);
        }
        if idents.contains_key(&key) {
            let error = Error::new(ErrorMessage::DuplicateUse(key), range.start..range.end);
            errors.push(error);
            assert(errors_model(errors@) =~= errors_before.push(error@));
        } else {
            idents.insert_new(key, value);
            assert(names_model(idents.entries@) =~= before.push((key@, value@)));
        }
        i += 1;
    }
    proof {
        assert(new_names.take(i as int) =~= new_names);
    }
    let ghost folded = errors_model(errors@);
    let ghost added = errors_model(new_errors@);
    errors.append(&mut new_errors);
    assert(errors_model(errors@) =~= folded + added);
    (idents, errors)
}

/// A namespace holds a name exactly when its content does.
pub proof fn lemma_names_hold(entries: Seq<(String, GlobalIdent)>, name: Seq<char>)
    ensures
        holds(keyed(entries), name) == holds(names_model(entries), name),
{
    if holds(keyed(entries), name) {
        let i = choose|i: int| 0 <= i < entries.len() && (#[trigger] keyed(entries)[i]).0 == name;
        assert(names_model(entries)[i].0 == name);
    }
    if holds(names_model(entries), name) {
        let i = choose|i: int|
            0 <= i < entries.len() && (#[trigger] names_model(entries)[i]).0 == name;
        assert(keyed(entries)[i].0 == name);
    }
}

/// Analyzes one use statement.
fn analyze_use(u: &Use) -> (r: (Namespace, Errors))
    ensures
        (names_model(r.0.entries@), errors_model(r.1@)) == spec_use(*u),
        r.0.wf(),
{
    match (&u.name, &u.body) {
        (Some(root), Some(body)) => {
            // the path stack keeps track of the module hierarchy
            let mut path_stack: Vec<String> = Vec::new();
            path_stack.push(root.name.clone());
            assert(strings_model(path_stack@) =~= seq![root.name@]);
            let (idents, errors, _) = analyze_body(body, &mut path_stack);
            (idents, errors)
        },
        (Some(root), None) => {
            let ident = GlobalIdent { root: root.name.clone(), path: Vec::new() };
            assert(ident@ =~= seq![root.name@]);
            let name = match u.identifier() {
                Some(name) => name.name.clone(),
                None => root.name.clone(),
            };
            let errors: Errors = Vec::new();
            assert(errors_model(errors@) =~= Seq::empty());
            (single_name(name, ident), errors)
        },
        _ => {
            let names = Namespace::new();
            let errors: Errors = Vec::new();
            assert(names_model(names.entries@) =~= Seq::empty());
            assert(errors_model(errors@) =~= Seq::empty());
            (names, errors)
        },
    }
}

/// Analyzes the body of a use or of an item, and says whether it is a
/// single item.
fn analyze_body(body: &UseBody, path_stack: &mut Vec<String>) -> (r: (Namespace, Errors, bool))
    requires
        old(path_stack)@.len() > 0,
    ensures
        (names_model(r.0.entries@), errors_model(r.1@), r.2) == spec_body(
            *body,
            strings_model(old(path_stack)@),
        ),
        strings_model(final(path_stack)@) == strings_model(old(path_stack)@),
        final(path_stack)@.len() == old(path_stack)@.len(),
        r.0.wf(),
    decreases body,
{
    let ghost stack = strings_model(path_stack@);
    match &body.kind {
        None => {
            let names = Namespace::new();
            let errors: Errors = Vec::new();
            assert(names_model(names.entries@) =~= Seq::empty());
            assert(errors_model(errors@) =~= Seq::empty());
            (names, errors, false)
        },
        Some(UseKind::All(info)) => {
            let names = Namespace::new();
            let mut errors: Errors = Vec::new();
            let error = Error::new(
                ErrorMessage::Unsupported(String::from_str(GLOB_IMPORT)),
                info.to_token_range(),
            );
            errors.push(error);
            assert(names_model(names.entries@) =~= Seq::empty());
            assert(errors_model(errors@) =~= seq![error@]);
            (names, errors, false)
        },
        Some(UseKind::Single(item)) => {
            let (idents, errors) = analyze_item(item, path_stack);
            (idents, errors, true)
        },
        Some(UseKind::Multiple(items)) => {
            let mut acc: (Namespace, Errors) = (Namespace::new(), Vec::new());
            let mut i: usize = 0;
            proof {
                assert(items.items@.take(0) =~= Seq::empty());
                assert(names_model(acc.0.entries@) =~= Seq::empty());
                assert(errors_model(acc.1@) =~= Seq::empty());
            }
            while i < items.items.len()
                invariant
                    i <= items.items@.len(),
                    body.kind == Some(UseKind::Multiple(*items)),
                    path_stack@.len() > 0,
                    strings_model(path_stack@) == stack,
                    (names_model(acc.0.entries@), errors_model(acc.1@)) == spec_items(
                        items.items@.take(i as int),
                        stack,
                    ),
                    acc.0.wf(),
                decreases items.items@.len() - i,
            {
                proof {
                    assert(items.items@.take(i + 1).drop_last() =~= items.items@.take(i as int));
                    assert(items.items@.take(i + 1).last() == items.items@[i as int]);
                    assert(body.kind->Some_0->Multiple_0 == *items);
                }
                match &items.items[i] {
                    Ok(item) => {
                        let new = analyze_item(item, path_stack);
                        acc = fold_uses(acc, &item.info.range, new);
                    },
                    Err(_) => {},
                }
                i += 1;
            }
            proof {
                assert(items.items@.take(i as int) =~= items.items@);
            }
            (acc.0, acc.1, false)
        },
        Some(UseKind::Error(_)) => {
            let names = Namespace::new();
            let errors: Errors = Vec::new();
            assert(names_model(names.entries@) =~= Seq::empty());
            assert(errors_model(errors@) =~= Seq::empty());
            (names, errors, false)
        },
    }
}

/// Analyzes one item below the path on the stack.
fn analyze_item(item: &UseItem, path_stack: &mut Vec<String>) -> (r: (Namespace, Errors))
    requires
        old(path_stack)@.len() > 0,
    ensures
        (names_model(r.0.entries@), errors_model(r.1@)) == spec_item(
            *item,
            strings_model(old(path_stack)@),
        ),
        strings_model(final(path_stack)@) == strings_model(old(path_stack)@),
        final(path_stack)@.len() == old(path_stack)@.len(),
        r.0.wf(),
    decreases item,
{
    let ghost stack = strings_model(path_stack@);
    path_stack.push(item.name.name.clone());
    assert(strings_model(path_stack@) =~= stack.push(item.name.name@));
    match &item.body {
        Some(body) => {
            let (idents, mut errors, is_single) = analyze_body(body, path_stack);
            if !is_single {
                match &item.alias {
                    Some(alias) => {
                        let ghost before = errors_model(errors@);
                        let error = Error::new(
                            ErrorMessage::AliasingNonSingle,
                            alias.info.to_token_range(),
                        );
                        errors.push(error);
                        assert(errors_model(errors@) =~= before.push(error@));
                    },
                    None => {},
                }
            }
            let ghost pushed = strings_model(path_stack@);
            path_stack.pop();
            assert(strings_model(path_stack@) =~= pushed.drop_last());
            assert(stack.push(item.name.name@).drop_last() =~= stack);
            (idents, errors)
        },
        None => {
            // a terminal item
            let root = path_stack[0].clone();
            let mut path: Vec<String> = Vec::new();
            let mut i: usize = 1;
            while i < path_stack.len()
                invariant
                    1 <= i <= path_stack@.len(),
                    path@.len() == i - 1,
                    forall|j: int| 0 <= j < i - 1 ==> (#[trigger] path@[j])@ == path_stack@[j + 1]@,
                decreases path_stack@.len() - i,
            {
                path.push(path_stack[i].clone());
                i += 1;
            }
            let ident = GlobalIdent { root, path };
            assert(ident@ =~= strings_model(path_stack@));
            let ghost pushed = strings_model(path_stack@);
            path_stack.pop();
            assert(strings_model(path_stack@) =~= pushed.drop_last());
            assert(stack.push(item.name.name@).drop_last() =~= stack);
            let errors: Errors = Vec::new();
            assert(errors_model(errors@) =~= Seq::empty());
            (single_name(item.identifier().name.clone(), ident), errors)
        },
    }
}

/// Folding names in adds errors at the given range only.
proof fn lemma_fold_names_within(
    names: NameMap,
    errors: Seq<ErrorView>,
    range: TokenRange,
    new: NameMap,
    n: int,
)
    requires
        range_within(range, n),
        views_within(errors, n),
    ensures
        views_within(spec_fold_names(names, errors, range, new).1, n),
    decreases new.len(),
{
    if new.len() > 0 {
        lemma_fold_names_within(names, errors, range, new.drop_last(), n);
    }
}

/// Folding a use in keeps the ranges of the errors within the tokens.
proof fn lemma_fold_uses_within(
    acc: (NameMap, Seq<ErrorView>),
    range: TokenRange,
    new: (NameMap, Seq<ErrorView>),
    n: int,
)
    requires
        range_within(range, n),
        views_within(acc.1, n),
        views_within(new.1, n),
    ensures
        views_within(spec_fold_uses(acc, range, new).1, n),
{
    lemma_fold_names_within(acc.0, acc.1, range, new.0, n);
}

/// The errors of an item lie within the tokens that the item lies
/// within.
proof fn lemma_item_within(item: UseItem, stack: Seq<Seq<char>>, n: int)
    requires
        item.within(n),
    ensures
        views_within(spec_item(item, stack).1, n),
    decreases item,
{
    match item.body {
        Some(body) => {
            lemma_body_within(*body, stack.push(item.name.name@), n);
        },
        None => {},
    }
}

/// The errors of a body lie within the tokens that the body lies
/// within.
proof fn lemma_body_within(body: UseBody, stack: Seq<Seq<char>>, n: int)
    requires
        body.within(n),
    ensures
        views_within(spec_body(body, stack).1, n),
    decreases body,
{
    match body.kind {
        Some(UseKind::Single(item)) => {
            lemma_item_within(item, stack, n);
        },
        Some(UseKind::Multiple(items)) => {
            lemma_items_within(items.items@, stack, n);
        },
        _ => {},
    }
}

/// The errors of the items between braces lie within the tokens that
/// the items lie within.
proof fn lemma_items_within(
    items: Seq<Result<UseItem, UseItemError>>,
    stack: Seq<Seq<char>>,
    n: int,
)
    requires
        forall|i: int| 0 <= i < items.len() ==> item_within(#[trigger] items[i], n),
    ensures
        views_within(spec_items(items, stack).1, n),
    decreases items,
{
    if items.len() > 0 {
        assert forall|i: int| 0 <= i < items.drop_last().len() implies item_within(
            #[trigger] items.drop_last()[i],
            n,
        ) by {
            assert(item_within(items[i], n));
        }
        lemma_items_within(items.drop_last(), stack, n);
        assert(item_within(items[items.len() - 1], n));
        match items.last() {
            Ok(item) => {
                lemma_item_within(item, stack, n);
                lemma_fold_uses_within(
                    spec_items(items.drop_last(), stack),
                    item.info.range,
                    spec_item(item, stack),
                    n,
                );
            },
            Err(_) => {},
        }
    }
}

/// The errors of the uses lie within the tokens that the globals lie
/// within.
pub proof fn lemma_uses_within(globals: Seq<Global>, n: int)
    requires
        globals_within(globals, n),
    ensures
        views_within(spec_uses(globals).1, n),
    decreases globals.len(),
{
    if globals.len() > 0 {
        assert forall|i: int| 0 <= i < globals.drop_last().len() implies (
        #[trigger] globals.drop_last()[i]).within(n) by {
            assert(globals[i].within(n));
        }
        lemma_uses_within(globals.drop_last(), n);
        assert(globals[globals.len() - 1].within(n));
        match globals.last() {
            Global::Use(u) => {
                match (u.name, u.body) {
                    (Some(root), Some(body)) => {
                        lemma_body_within(body, seq![root.name@], n);
                    },
                    _ => {},
                }
                lemma_fold_uses_within(
                    spec_uses(globals.drop_last()),
                    u.info.range,
                    spec_use(u),
                    n,
                );
            },
            _ => {},
        }
    }
}

} // verus!
