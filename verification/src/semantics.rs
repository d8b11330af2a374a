//! What values and instructions mean: evaluation as mathematical
//! functions from a world to a world and a result.
//!
//! Evaluation may nest without end, so every function takes a bound on how
//! deep deferred expressions may still nest, and fails with `TooDeep`
//! where the bound is used up. Parts of a value are evaluated within the
//! bound of the value; what an evaluation has produced is evaluated within
//! a bound one smaller.

use vstd::prelude::*;
use crate::environment::{bind, lookup, EnvironmentView};
use crate::error::RuntimeError;
use crate::instruction::{CondBlockView, InstructionView};
use crate::interpreter::{InterpreterView, World};
use crate::mail::{DraftView, MailView};
use crate::modifier::ModifierFunc;
use crate::text::{lowercase, number_of, pattern_matches, pattern_valid};
use crate::types::TypeView;
use crate::user::{fresh_user, UserDefView};

verus! {

/// The world after an evaluation, and what it gave; or what ended the run.
pub type Outcome<T> = Result<(World, T), RuntimeError>;

/// An address.
pub type Path = (Seq<char>, Seq<char>);

/// The world with one more server waiting to be installed.
pub open spec fn with_server(w: World, name: Seq<char>) -> World {
    World {
        inter: InterpreterView { servers_to_add: w.inter.servers_to_add.push(name), ..w.inter },
        ..w
    }
}

/// The world with one more user waiting to be installed.
pub open spec fn with_user(w: World, name: Seq<char>, server: Seq<char>, def: UserDefView) -> World {
    World {
        inter: InterpreterView {
            users_to_add: w.inter.users_to_add.push((name, server, fresh_user(def, name, server))),
            ..w.inter
        },
        ..w
    }
}

/// The world with one more mail waiting to be delivered.
pub open spec fn with_mail(w: World, mail: MailView) -> World {
    World { inter: InterpreterView { pending: w.inter.pending.push(mail), ..w.inter }, ..w }
}

/// The world after the acting user's variable `key` is set to `value`.
pub open spec fn with_variable(w: World, key: Seq<char>, value: TypeView) -> World {
    World { env: EnvironmentView { data: bind(w.env.data, key, value), ..w.env }, ..w }
}

/// Whether a text counts as false: in lowercase it is `false`, `0` or
/// empty.
pub open spec fn falsy(text: Seq<char>) -> bool {
    let lower = lowercase(text);
    lower == seq!['f', 'a', 'l', 's', 'e'] || lower == seq!['0'] || lower.len() == 0
}

/// Whether no deferred expression is left in the value, its tuples
/// included. The halves of an address are left as they are.
pub open spec fn is_resolved(v: TypeView) -> bool
    decreases v,
{
    match v {
        TypeView::Expression(_) => false,
        TypeView::Tuple(items) => forall|i: int|
            0 <= i < items.len() ==> is_resolved(#[trigger] items[i]),
        _ => true,
    }
}

/// A position counted from the end where it is negative.
pub open spec fn normalized(pos: int, len: int) -> int {
    if pos < 0 {
        len + pos
    } else {
        pos
    }
}

/// The value with every deferred expression evaluated, again and again
/// until none is left, in tuples too.
pub open spec fn resolved(v: TypeView, w: World, from: Path, d: nat) -> Outcome<TypeView>
    decreases d, v, 0nat, 0nat,
{
    match v {
        TypeView::Expression(e) => if d == 0 {
            Err(RuntimeError::TooDeep)
        } else {
            match called(*e, w, from, (d - 1) as nat) {
                Err(x) => Err(x),
                Ok((w1, r)) => resolved(r, w1, from, (d - 1) as nat),
            }
        },
        TypeView::Tuple(items) => match resolved_items(items, 0, w, from, d) {
            Err(x) => Err(x),
            Ok((w1, rs)) => Ok((w1, TypeView::Tuple(rs))),
        },
        _ => Ok((w, v)),
    }
}

/// The items from index `i` on, each resolved, from left to right.
pub open spec fn resolved_items(items: Seq<TypeView>, i: int, w: World, from: Path, d: nat) -> Outcome<
    Seq<TypeView>,
>
    decreases d, items, 0nat, items.len() - i,
{
    if i < 0 || i >= items.len() {
        Ok((w, Seq::empty()))
    } else {
        match resolved(items[i], w, from, d) {
            Err(x) => Err(x),
            Ok((w1, r)) => match resolved_items(items, i + 1, w1, from, d) {
                Err(x) => Err(x),
                Ok((w2, rest)) => Ok((w2, seq![r] + rest)),
            },
        }
    }
}

/// The value as a text, if it is one: a text is itself, and an address is
/// its name, `@` and its server, both of which must be texts.
pub open spec fn string_of(v: TypeView, w: World, from: Path, d: nat) -> Outcome<Option<Seq<char>>>
    decreases d, v, 1nat, 0nat,
{
    match v {
        TypeView::Text(s) => Ok((w, Some(s))),
        TypeView::Expression(_) => if d == 0 {
            Err(RuntimeError::TooDeep)
        } else {
            match resolved(v, w, from, d) {
                Err(x) => Err(x),
                Ok((w1, r)) => string_of(r, w1, from, (d - 1) as nat),
            }
        },
        TypeView::UserPath(name, server) => match string_of(*name, w, from, d) {
            Err(x) => Err(x),
            Ok((_, None)) => Err(RuntimeError::ExpectedText),
            Ok((w1, Some(a))) => match string_of(*server, w1, from, d) {
                Err(x) => Err(x),
                Ok((_, None)) => Err(RuntimeError::ExpectedText),
                Ok((w2, Some(b))) => Ok((w2, Some(a + seq!['@'] + b))),
            },
        },
        _ => Ok((w, None)),
    }
}

/// The texts of the items from index `i` on, from left to right. An item
/// that is no text ends the run where `strict` holds, and counts as the
/// empty text where it does not.
pub open spec fn texts_of(
    items: Seq<TypeView>,
    i: int,
    strict: bool,
    w: World,
    from: Path,
    d: nat,
) -> Outcome<Seq<Seq<char>>>
    decreases d, items, 2nat, items.len() - i,
{
    if i < 0 || i >= items.len() {
        Ok((w, Seq::empty()))
    } else {
        match string_of(items[i], w, from, d) {
            Err(x) => Err(x),
            Ok((w1, found)) => if found is None && strict {
                Err(RuntimeError::ExpectedText)
            } else {
                let text = match found {
                    Some(s) => s,
                    None => Seq::empty(),
                };
                match texts_of(items, i + 1, strict, w1, from, d) {
                    Err(x) => Err(x),
                    Ok((w2, rest)) => Ok((w2, seq![text] + rest)),
                }
            },
        }
    }
}

/// The items of the value, if it is a tuple.
pub open spec fn tuple_of(v: TypeView, w: World, from: Path, d: nat) -> Outcome<
    Option<Seq<TypeView>>,
>
    decreases d, v, 1nat, 0nat,
{
    match v {
        TypeView::Tuple(items) => Ok((w, Some(items))),
        TypeView::Expression(_) => if d == 0 {
            Err(RuntimeError::TooDeep)
        } else {
            match resolved(v, w, from, d) {
                Err(x) => Err(x),
                Ok((w1, r)) => tuple_of(r, w1, from, (d - 1) as nat),
            }
        },
        _ => Ok((w, None)),
    }
}

/// The value as an address, if it is one whose two halves are texts.
pub open spec fn user_of(v: TypeView, w: World, from: Path, d: nat) -> Outcome<Option<Path>>
    decreases d, v, 1nat, 0nat,
{
    match v {
        TypeView::UserPath(name, server) => match string_of(*name, w, from, d) {
            Err(x) => Err(x),
            Ok((w1, a)) => match string_of(*server, w1, from, d) {
                Err(x) => Err(x),
                Ok((w2, b)) => Ok(
                    (
                        w2,
                        match (a, b) {
                            (Some(a), Some(b)) => Some((a, b)),
                            _ => None,
                        },
                    ),
                ),
            },
        },
        TypeView::Expression(_) => if d == 0 {
            Err(RuntimeError::TooDeep)
        } else {
            match resolved(v, w, from, d) {
                Err(x) => Err(x),
                Ok((w1, r)) => user_of(r, w1, from, (d - 1) as nat),
            }
        },
        _ => Ok((w, None)),
    }
}

/// The draft that the texts of a tuple make: the subject, the message, and
/// then the attachments; what is missing is empty.
pub open spec fn draft_from(texts: Seq<Seq<char>>) -> DraftView {
    DraftView {
        subject: if texts.len() > 0 {
            texts[0]
        } else {
            Seq::empty()
        },
        message: if texts.len() > 1 {
            texts[1]
        } else {
            Seq::empty()
        },
        attachments: if texts.len() > 2 {
            texts.subrange(2, texts.len() as int)
        } else {
            Seq::empty()
        },
    }
}

/// The value as a draft, if it is a text (the subject alone) or a tuple.
pub open spec fn draft_of(v: TypeView, w: World, from: Path, d: nat) -> Outcome<Option<DraftView>>
    decreases d, v, 1nat, 0nat,
{
    match v {
        TypeView::Tuple(items) => match texts_of(items, 0, false, w, from, d) {
            Err(x) => Err(x),
            Ok((w1, texts)) => Ok((w1, Some(draft_from(texts)))),
        },
        TypeView::Text(s) => Ok(
            (
                w,
                Some(DraftView { subject: s, message: Seq::empty(), attachments: Seq::empty() }),
            ),
        ),
        TypeView::Expression(_) => if d == 0 {
            Err(RuntimeError::TooDeep)
        } else {
            match resolved(v, w, from, d) {
                Err(x) => Err(x),
                Ok((w1, r)) => draft_of(r, w1, from, (d - 1) as nat),
            }
        },
        _ => Ok((w, None)),
    }
}

/// Whether the value counts as true: null does not, a text does unless it
/// is falsy, a tuple does unless it is empty, and an address does.
pub open spec fn bool_of(v: TypeView, w: World, from: Path, d: nat) -> Outcome<bool>
    decreases d, v, 1nat, 0nat,
{
    match v {
        TypeView::Null => Ok((w, false)),
        TypeView::Text(s) => Ok((w, !falsy(s))),
        TypeView::Tuple(items) => Ok((w, items.len() > 0)),
        TypeView::Expression(_) => if d == 0 {
            Err(RuntimeError::TooDeep)
        } else {
            match resolved(v, w, from, d) {
                Err(x) => Err(x),
                Ok((w1, r)) => bool_of(r, w1, from, (d - 1) as nat),
            }
        },
        TypeView::UserPath(_, _) => Ok((w, true)),
    }
}

/// The value as a number, if it is a text that stands for one.
pub open spec fn num_of(v: TypeView, w: World, from: Path, d: nat) -> Outcome<Option<isize>>
    decreases d, v, 1nat, 0nat,
{
    match v {
        TypeView::Text(s) => Ok((w, number_of(s))),
        TypeView::Expression(_) => if d == 0 {
            Err(RuntimeError::TooDeep)
        } else {
            match resolved(v, w, from, d) {
                Err(x) => Err(x),
                Ok((w1, r)) => num_of(r, w1, from, (d - 1) as nat),
            }
        },
        _ => Ok((w, None)),
    }
}

/// The number of characters of a text or of items of a tuple.
pub open spec fn len_of(v: TypeView, w: World, from: Path, d: nat) -> Outcome<Option<nat>>
    decreases d, v, 1nat, 0nat,
{
    match v {
        TypeView::Tuple(items) => Ok((w, Some(items.len()))),
        TypeView::Text(s) => Ok((w, Some(s.len()))),
        TypeView::Expression(_) => if d == 0 {
            Err(RuntimeError::TooDeep)
        } else {
            match resolved(v, w, from, d) {
                Err(x) => Err(x),
                Ok((w1, r)) => len_of(r, w1, from, (d - 1) as nat),
            }
        },
        _ => Ok((w, None)),
    }
}

/// The character or item at `pos`. A negative position counts from the
/// end; a position outside the value ends the run. A deferred expression
/// is evaluated once for its length and once more for its value.
pub open spec fn index_of(v: TypeView, pos: int, w: World, from: Path, d: nat) -> Outcome<
    Option<TypeView>,
>
    decreases d, v, 2nat, 0nat,
{
    match len_of(v, w, from, d) {
        Err(x) => Err(x),
        Ok((_, None)) => Err(RuntimeError::NoLength),
        Ok((w1, Some(len))) => {
            let p = normalized(pos, len as int);
            if p < 0 || p >= len {
                Err(RuntimeError::OutOfRange)
            } else {
                match v {
                    TypeView::Tuple(items) => Ok((w1, Some(items[p]))),
                    TypeView::Text(s) => Ok((w1, Some(TypeView::Text(seq![s[p]])))),
                    TypeView::Expression(_) => if d == 0 {
                        Err(RuntimeError::TooDeep)
                    } else {
                        match resolved(v, w1, from, d) {
                            Err(x) => Err(x),
                            Ok((w2, r)) => index_of(r, p, w2, from, (d - 1) as nat),
                        }
                    },
                    _ => Ok((w1, None)),
                }
            }
        },
    }
}

/// The characters or items from `a` up to `b`. Negative positions count
/// from the end; positions that are not in order or lie outside the value
/// end the run.
pub open spec fn slice_of(v: TypeView, a: int, b: int, w: World, from: Path, d: nat) -> Outcome<
    Option<TypeView>,
>
    decreases d, v, 2nat, 0nat,
{
    match len_of(v, w, from, d) {
        Err(x) => Err(x),
        Ok((_, None)) => Err(RuntimeError::NoLength),
        Ok((w1, Some(len))) => {
            let start = normalized(a, len as int);
            let end = normalized(b, len as int);
            if start < 0 || start > end || end > len {
                Err(RuntimeError::OutOfRange)
            } else {
                match v {
                    TypeView::Tuple(items) => Ok(
                        (w1, Some(TypeView::Tuple(items.subrange(start, end)))),
                    ),
                    TypeView::Text(s) => Ok((w1, Some(TypeView::Text(s.subrange(start, end))))),
                    TypeView::Expression(_) => if d == 0 {
                        Err(RuntimeError::TooDeep)
                    } else {
                        match resolved(v, w1, from, d) {
                            Err(x) => Err(x),
                            Ok((w2, r)) => slice_of(r, start, end, w2, from, (d - 1) as nat),
                        }
                    },
                    _ => Ok((w1, None)),
                }
            }
        },
    }
}

/// The items of a tuple, or the value itself as the one item.
pub open spec fn unpacked(v: TypeView, w: World, from: Path, d: nat) -> Outcome<Seq<TypeView>>
    decreases d, v, 2nat, 0nat,
{
    match tuple_of(v, w, from, d) {
        Err(x) => Err(x),
        Ok((w1, Some(items))) => Ok((w1, items)),
        Ok((w1, None)) => Ok((w1, seq![v])),
    }
}

/// The name of the modifier that a value invokes: the value itself where
/// it is a text, and the first item where it is a tuple.
pub open spec fn modname_of(v: TypeView, w: World, from: Path, d: nat) -> Outcome<Seq<char>>
    decreases d, v, 1nat, 0nat,
{
    match v {
        TypeView::Text(s) => Ok((w, s)),
        TypeView::Tuple(items) => if items.len() == 0 {
            Err(RuntimeError::BadModifier)
        } else {
            match string_of(items[0], w, from, d) {
                Err(x) => Err(x),
                Ok((_, None)) => Err(RuntimeError::ExpectedText),
                Ok((w1, Some(s))) => Ok((w1, s)),
            }
        },
        TypeView::Expression(_) => if d == 0 {
            Err(RuntimeError::TooDeep)
        } else {
            match resolved(v, w, from, d) {
                Err(x) => Err(x),
                Ok((w1, r)) => modname_of(r, w1, from, (d - 1) as nat),
            }
        },
        _ => Err(RuntimeError::BadModifier),
    }
}

/// The arguments that a value hands to its modifier: none where it is a
/// text, and the items behind the first where it is a tuple.
pub open spec fn modargs_of(v: TypeView, w: World, from: Path, d: nat) -> Outcome<Seq<TypeView>>
    decreases d, v, 1nat, 0nat,
{
    match v {
        TypeView::Text(_) => Ok((w, Seq::empty())),
        TypeView::Tuple(items) => if items.len() == 0 {
            Err(RuntimeError::BadModifier)
        } else {
            Ok((w, items.subrange(1, items.len() as int)))
        },
        TypeView::Expression(_) => if d == 0 {
            Err(RuntimeError::TooDeep)
        } else {
            match resolved(v, w, from, d) {
                Err(x) => Err(x),
                Ok((w1, r)) => modargs_of(r, w1, from, (d - 1) as nat),
            }
        },
        _ => Err(RuntimeError::BadModifier),
    }
}

/// Each character of a text as a text of its own.
pub open spec fn char_texts(text: Seq<char>) -> Seq<TypeView> {
    Seq::new(text.len(), |i: int| TypeView::Text(seq![text[i]]))
}

/// The texts joined into one.
pub open spec fn joined(texts: Seq<Seq<char>>) -> Seq<char>
    decreases texts.len(),
{
    if texts.len() == 0 {
        Seq::empty()
    } else {
        joined(texts.drop_last()) + texts.last()
    }
}

/// The texts that the pattern matches, in order, each as a value.
pub open spec fn matching(texts: Seq<Seq<char>>, pattern: Seq<char>) -> Seq<TypeView>
    decreases texts.len(),
{
    if texts.len() == 0 {
        Seq::empty()
    } else if pattern_matches(pattern, texts.last()) {
        matching(texts.drop_last(), pattern).push(TypeView::Text(texts.last()))
    } else {
        matching(texts.drop_last(), pattern)
    }
}

/// What a modifier makes of a value and its arguments; none where it
/// refuses the number of arguments.
pub open spec fn applied(
    f: ModifierFunc,
    value: TypeView,
    args: Seq<TypeView>,
    w: World,
    from: Path,
    d: nat,
) -> Outcome<Option<TypeView>>
    decreases d, value, 3nat, 0nat,
{
    if d == 0 {
        Err(RuntimeError::TooDeep)
    } else {
        match f {
            ModifierFunc::Chars => if args.len() != 0 {
                Ok((w, None))
            } else {
                match string_of(value, w, from, d) {
                    Err(x) => Err(x),
                    Ok((_, None)) => Err(RuntimeError::ExpectedText),
                    Ok((w1, Some(s))) => Ok((w1, Some(TypeView::Tuple(char_texts(s))))),
                }
            },
            ModifierFunc::Merge => if args.len() != 0 {
                Ok((w, None))
            } else {
                match unpacked(value, w, from, d) {
                    Err(x) => Err(x),
                    Ok((w1, items)) => match texts_of(items, 0, true, w1, from, (d - 1) as nat) {
                        Err(x) => Err(x),
                        Ok((w2, texts)) => Ok((w2, Some(TypeView::Text(joined(texts))))),
                    },
                }
            },
            ModifierFunc::Filter => if args.len() != 1 {
                Ok((w, None))
            } else {
                match string_of(args[0], w, from, (d - 1) as nat) {
                    Err(x) => Err(x),
                    Ok((_, None)) => Err(RuntimeError::ExpectedText),
                    Ok((w1, Some(pattern))) => if !pattern_valid(pattern) {
                        Err(RuntimeError::BadPattern)
                    } else {
                        match unpacked(value, w1, from, d) {
                            Err(x) => Err(x),
                            Ok((w2, items)) => match texts_of(
                                items,
                                0,
                                true,
                                w2,
                                from,
                                (d - 1) as nat,
                            ) {
                                Err(x) => Err(x),
                                Ok((w3, texts)) => Ok(
                                    (w3, Some(TypeView::Tuple(matching(texts, pattern)))),
                                ),
                            },
                        }
                    },
                }
            },
        }
    }
}

/// What the modifier that `m` invokes makes of `other`; none where the
/// registry has no modifier of that name.
pub open spec fn modified(m: TypeView, other: TypeView, w: World, from: Path, d: nat) -> Outcome<
    Option<TypeView>,
>
    decreases d, m, 2nat, 0nat,
{
    match modname_of(m, w, from, d) {
        Err(x) => Err(x),
        Ok((w1, name)) => match modargs_of(m, w1, from, d) {
            Err(x) => Err(x),
            Ok((w2, args)) => if !w2.inter.modifiers.dom().contains(name) {
                Ok((w2, None))
            } else if d == 0 {
                Err(RuntimeError::TooDeep)
            } else {
                applied(w2.inter.modifiers[name], other, args, w2, from, (d - 1) as nat)
            },
        },
    }
}

/// The values of the variables that the items from index `i` on name,
/// each read as soon as its name is known.
pub open spec fn looked_up(items: Seq<TypeView>, i: int, w: World, from: Path, d: nat) -> Outcome<
    Seq<TypeView>,
>
    decreases d, items, 2nat, items.len() - i,
{
    if i < 0 || i >= items.len() {
        Ok((w, Seq::empty()))
    } else {
        match string_of(items[i], w, from, d) {
            Err(x) => Err(x),
            Ok((_, None)) => Err(RuntimeError::ExpectedText),
            Ok((w1, Some(key))) => match looked_up(items, i + 1, w1, from, d) {
                Err(x) => Err(x),
                Ok((w2, rest)) => Ok((w2, seq![lookup(w1.env.data, key)] + rest)),
            },
        }
    }
}

/// Each name with the value at the same index.
pub open spec fn paired(names: Seq<TypeView>, values: Seq<TypeView>) -> Seq<(TypeView, TypeView)> {
    Seq::new(names.len(), |i: int| (names[i], values[i]))
}

/// The world after each name from index `i` on is bound to the resolved
/// value that stands with it.
pub open spec fn bound(pairs: Seq<(TypeView, TypeView)>, i: int, w: World, from: Path, d: nat) -> Result<
    World,
    RuntimeError,
>
    decreases d, pairs, 2nat, pairs.len() - i,
{
    if i < 0 || i >= pairs.len() {
        Ok(w)
    } else {
        match string_of(pairs[i].0, w, from, d) {
            Err(x) => Err(x),
            Ok((_, None)) => Err(RuntimeError::ExpectedText),
            Ok((w1, Some(key))) => match resolved(pairs[i].1, w1, from, d) {
                Err(x) => Err(x),
                Ok((w2, content)) => bound(pairs, i + 1, with_variable(w2, key, content), from, d),
            },
        }
    }
}

/// What running one instruction gives, and what it does to the world.
pub open spec fn called(instr: InstructionView, w: World, from: Path, d: nat) -> Outcome<TypeView>
    decreases d, instr, 1nat, 0nat,
{
    match instr {
        InstructionView::CreateServer(name) => match string_of(name, w, from, d) {
            Err(x) => Err(x),
            Ok((_, None)) => Err(RuntimeError::ExpectedText),
            Ok((w1, Some(s))) => Ok((with_server(w1, s), TypeView::Null)),
        },
        InstructionView::CreateUser(name, server, def) => match string_of(name, w, from, d) {
            Err(x) => Err(x),
            Ok((_, None)) => Err(RuntimeError::ExpectedText),
            Ok((w1, Some(a))) => match string_of(server, w1, from, d) {
                Err(x) => Err(x),
                Ok((_, None)) => Err(RuntimeError::ExpectedText),
                Ok((w2, Some(b))) => Ok((with_user(w2, a, b, def), TypeView::Null)),
            },
        },
        InstructionView::MailTo(draft, to) => match draft_of(draft, w, from, d) {
            Err(x) => Err(x),
            Ok((_, None)) => Err(RuntimeError::ExpectedDraft),
            Ok((w1, Some(content))) => match user_of(to, w1, from, d) {
                Err(x) => Err(x),
                Ok((_, None)) => Err(RuntimeError::ExpectedAddress),
                Ok((w2, Some(target))) => Ok(
                    (
                        with_mail(
                            w2,
                            MailView {
                                subject: content.subject,
                                message: content.message,
                                attachments: content.attachments,
                                to: target,
                                from,
                            },
                        ),
                        draft,
                    ),
                ),
            },
        },
        InstructionView::Concatenate(l, r) => match string_of(l, w, from, d) {
            Err(x) => Err(x),
            Ok((w1, ls)) => match string_of(r, w1, from, d) {
                Err(x) => Err(x),
                Ok((w2, rs)) => match (ls, rs) {
                    (Some(a), Some(b)) => Ok((w2, TypeView::Text(a + b))),
                    (None, Some(_)) => match tuple_of(l, w2, from, d) {
                        Err(x) => Err(x),
                        Ok((_, None)) => Err(RuntimeError::ExpectedTuple),
                        Ok((w3, Some(tl))) => Ok((w3, TypeView::Tuple(tl.push(r)))),
                    },
                    (Some(_), None) => match tuple_of(r, w2, from, d) {
                        Err(x) => Err(x),
                        Ok((_, None)) => Err(RuntimeError::ExpectedTuple),
                        Ok((w3, Some(tr))) => Ok((w3, TypeView::Tuple(seq![l] + tr))),
                    },
                    (None, None) => match tuple_of(l, w2, from, d) {
                        Err(x) => Err(x),
                        Ok((_, None)) => Err(RuntimeError::ExpectedTuple),
                        Ok((w3, Some(tl))) => match tuple_of(r, w3, from, d) {
                            Err(x) => Err(x),
                            Ok((_, None)) => Err(RuntimeError::ExpectedTuple),
                            Ok((w4, Some(tr))) => Ok((w4, TypeView::Tuple(tl + tr))),
                        },
                    },
                },
            },
        },
        InstructionView::GetEnv(val) => match string_of(val, w, from, d) {
            Err(x) => Err(x),
            Ok((w1, key)) => match tuple_of(val, w1, from, d) {
                Err(x) => Err(x),
                Ok((w2, Some(items))) => if d == 0 {
                    Err(RuntimeError::TooDeep)
                } else {
                    match looked_up(items, 0, w2, from, (d - 1) as nat) {
                        Err(x) => Err(x),
                        Ok((w3, values)) => Ok((w3, TypeView::Tuple(values))),
                    }
                },
                Ok((w2, None)) => match key {
                    Some(k) => Ok((w2, lookup(w2.env.data, k))),
                    None => Err(RuntimeError::ExpectedText),
                },
            },
        },
        InstructionView::Index(val, pos) => match num_of(pos, w, from, d) {
            Err(x) => Err(x),
            Ok((_, None)) => Err(RuntimeError::ExpectedNumber),
            Ok((w1, Some(n))) => match index_of(val, n as int, w1, from, d) {
                Err(x) => Err(x),
                Ok((_, None)) => Err(RuntimeError::NoLength),
                Ok((w2, Some(found))) => Ok((w2, found)),
            },
        },
        InstructionView::Slice(val, a, b) => {
            let start = match a {
                None => Ok((w, 0int)),
                Some(v) => match num_of(v, w, from, d) {
                    Err(x) => Err(x),
                    Ok((_, None)) => Err(RuntimeError::ExpectedNumber),
                    Ok((w1, Some(n))) => Ok((w1, n as int)),
                },
            };
            match start {
                Err(x) => Err(x),
                Ok((w1, start)) => {
                    let end = match b {
                        None => match len_of(val, w1, from, d) {
                            Err(x) => Err(x),
                            Ok((_, None)) => Err(RuntimeError::NoLength),
                            Ok((w2, Some(len))) => Ok((w2, len as int)),
                        },
                        Some(v) => match num_of(v, w1, from, d) {
                            Err(x) => Err(x),
                            Ok((_, None)) => Err(RuntimeError::ExpectedNumber),
                            Ok((w2, Some(n))) => Ok((w2, n as int)),
                        },
                    };
                    match end {
                        Err(x) => Err(x),
                        Ok((w2, end)) => match slice_of(val, start, end, w2, from, d) {
                            Err(x) => Err(x),
                            Ok((_, None)) => Err(RuntimeError::NoLength),
                            Ok((w3, Some(found))) => Ok((w3, found)),
                        },
                    }
                },
            }
        },
        InstructionView::Assign(to, val) => match string_of(to, w, from, d) {
            Err(x) => Err(x),
            Ok((w1, Some(key))) => match resolved(val, w1, from, d) {
                Err(x) => Err(x),
                Ok((w2, content)) => Ok((with_variable(w2, key, content), val)),
            },
            Ok((w1, None)) => match tuple_of(to, w1, from, d) {
                Err(x) => Err(x),
                Ok((w2, names)) => match tuple_of(val, w2, from, d) {
                    Err(x) => Err(x),
                    Ok((w3, values)) => match (names, values) {
                        (Some(ns), Some(vs)) => if ns.len() != vs.len() {
                            Err(RuntimeError::ArityMismatch)
                        } else if d == 0 {
                            Err(RuntimeError::TooDeep)
                        } else {
                            match bound(paired(ns, vs), 0, w3, from, (d - 1) as nat) {
                                Err(x) => Err(x),
                                Ok(w4) => Ok((w4, val)),
                            }
                        },
                        _ => Err(RuntimeError::ExpectedTuple),
                    },
                },
            },
        },
        InstructionView::IfBlock(chain) => match cond_called(chain, w, from, d) {
            Err(x) => Err(x),
            Ok(w1) => Ok((w1, TypeView::Null)),
        },
        InstructionView::Modify(val, m) => match modified(m, val, w, from, d) {
            Err(x) => Err(x),
            Ok((_, None)) => Err(RuntimeError::BadModifier),
            Ok((w1, Some(found))) => Ok((w1, found)),
        },
    }
}

/// The world after a conditional chain has run: the block of the first
/// link whose condition holds, or nothing.
pub open spec fn cond_called(chain: CondBlockView, w: World, from: Path, d: nat) -> Result<
    World,
    RuntimeError,
>
    decreases d, chain, 1nat, 0nat,
{
    let test = match chain.cond {
        None => Ok((w, true)),
        Some(t) => bool_of(t, w, from, d),
    };
    match test {
        Err(x) => Err(x),
        Ok((w1, true)) => ran(chain.block, 0, w1, from, d),
        Ok((w1, false)) => match chain.elseblock {
            Some(rest) => cond_called(*rest, w1, from, d),
            None => Ok(w1),
        },
    }
}

/// The world after the instructions from index `i` on have run, in order.
pub open spec fn ran(block: Seq<InstructionView>, i: int, w: World, from: Path, d: nat) -> Result<
    World,
    RuntimeError,
>
    decreases d, block, 1nat, block.len() - i,
{
    if i < 0 || i >= block.len() {
        Ok(w)
    } else {
        match called(block[i], w, from, d) {
            Err(x) => Err(x),
            Ok((w1, _)) => ran(block, i + 1, w1, from, d),
        }
    }
}

/// `first` in front of the values that `rest` gives, in the world of
/// `rest`; or what ended `rest`.
pub open spec fn followed<T>(first: Seq<T>, rest: Outcome<Seq<T>>) -> Outcome<Seq<T>> {
    match rest {
        Ok((w, more)) => Ok((w, first + more)),
        Err(x) => Err(x),
    }
}

pub proof fn lemma_followed_twice<T>(first: Seq<T>, second: Seq<T>, rest: Outcome<Seq<T>>)
    ensures
        followed(first, followed(second, rest)) == followed(first + second, rest),
{
    match rest {
        Ok((w, more)) => {
            assert(first + (second + more) =~= (first + second) + more);
        },
        Err(_) => {},
    }
}

pub proof fn lemma_followed_nothing<T>(rest: Outcome<Seq<T>>)
    ensures
        followed(Seq::empty(), rest) == rest,
{
    match rest {
        Ok((w, more)) => {
            assert(Seq::<T>::empty() + more =~= more);
        },
        Err(_) => {},
    }
}

/// Resolving a value that holds no deferred expression gives the value
/// back and changes nothing, whatever the bound on nesting is.
pub proof fn lemma_resolved_stays(v: TypeView, w: World, from: Path, d: nat)
    requires
        is_resolved(v),
    ensures
        resolved(v, w, from, d) == Ok::<_, RuntimeError>((w, v)),
    decreases v, 0nat,
{
    match v {
        TypeView::Tuple(items) => {
            lemma_resolved_items_stay(items, 0, w, from, d);
            assert(items.subrange(0, items.len() as int) =~= items);
        },
        _ => {},
    }
}

/// Resolving items that hold no deferred expression gives them back.
pub proof fn lemma_resolved_items_stay(items: Seq<TypeView>, i: int, w: World, from: Path, d: nat)
    requires
        0 <= i <= items.len(),
        forall|j: int| 0 <= j < items.len() ==> is_resolved(#[trigger] items[j]),
    ensures
        resolved_items(items, i, w, from, d) == Ok::<_, RuntimeError>(
            (w, items.subrange(i, items.len() as int)),
        ),
    decreases items, items.len() - i,
{
    if i < items.len() {
        lemma_resolved_stays(items[i], w, from, d);
        lemma_resolved_items_stay(items, i + 1, w, from, d);
        assert(seq![items[i]] + items.subrange(i + 1, items.len() as int) =~= items.subrange(
            i,
            items.len() as int,
        ));
    } else {
        assert(items.subrange(i, items.len() as int) =~= Seq::empty());
    }
}

/// What resolving gives holds no deferred expression.
pub proof fn lemma_resolved_is_resolved(v: TypeView, w: World, from: Path, d: nat)
    ensures
        resolved(v, w, from, d) is Ok ==> is_resolved(resolved(v, w, from, d)->Ok_0.1),
    decreases d, v, 0nat,
{
    match v {
        TypeView::Expression(e) => {
            if d > 0 {
                match called(*e, w, from, (d - 1) as nat) {
                    Ok((w1, r)) => {
                        lemma_resolved_is_resolved(r, w1, from, (d - 1) as nat);
                    },
                    Err(_) => {},
                }
            }
        },
        TypeView::Tuple(items) => {
            lemma_resolved_items_are_resolved(items, 0, w, from, d);
        },
        _ => {},
    }
}

/// What resolving items gives holds no deferred expression.
pub proof fn lemma_resolved_items_are_resolved(
    items: Seq<TypeView>,
    i: int,
    w: World,
    from: Path,
    d: nat,
)
    ensures
        resolved_items(items, i, w, from, d) is Ok ==> forall|j: int|
            0 <= j < resolved_items(items, i, w, from, d)->Ok_0.1.len() ==> is_resolved(
                #[trigger] resolved_items(items, i, w, from, d)->Ok_0.1[j],
            ),
    decreases d, items, items.len() - i,
{
    if 0 <= i < items.len() {
        lemma_resolved_is_resolved(items[i], w, from, d);
        match resolved(items[i], w, from, d) {
            Ok((w1, r)) => {
                lemma_resolved_items_are_resolved(items, i + 1, w1, from, d);
            },
            Err(_) => {},
        }
    }
}

/// Resolving is idempotent: what resolving a value has given, resolving
/// gives again, and the second time nothing else happens.
pub proof fn lemma_resolve_idempotent(v: TypeView, w: World, from: Path, d: nat, again: nat)
    ensures
        match resolved(v, w, from, d) {
            Ok((w1, r)) => resolved(r, w1, from, again) == Ok::<_, RuntimeError>((w1, r)),
            Err(_) => true,
        },
{
    lemma_resolved_is_resolved(v, w, from, d);
    match resolved(v, w, from, d) {
        Ok((w1, r)) => {
            lemma_resolved_stays(r, w1, from, again);
        },
        Err(_) => {},
    }
}

/// A slice of a text whose two positions, counted from the end where they
/// are negative, lie in order inside the text, is the text between them:
/// it has as many characters as the positions are apart.
pub proof fn lemma_slice_of_text(text: Seq<char>, a: int, b: int, w: World, from: Path, d: nat)
    requires
        0 <= normalized(a, text.len() as int) <= normalized(b, text.len() as int) <= text.len(),
    ensures
        slice_of(TypeView::Text(text), a, b, w, from, d) == Ok::<_, RuntimeError>(
            (
                w,
                Some(
                    TypeView::Text(
                        text.subrange(
                            normalized(a, text.len() as int),
                            normalized(b, text.len() as int),
                        ),
                    ),
                ),
            ),
        ),
        text.subrange(
            normalized(a, text.len() as int),
            normalized(b, text.len() as int),
        ).len() == normalized(b, text.len() as int) - normalized(a, text.len() as int),
{
    assert(len_of(TypeView::Text(text), w, from, d) == Ok::<_, RuntimeError>(
        (w, Some(text.len())),
    ));
}

/// A slice whose positions do not lie in order inside the value ends the
/// run.
pub proof fn lemma_slice_outside(text: Seq<char>, a: int, b: int, w: World, from: Path, d: nat)
    requires
        !(0 <= normalized(a, text.len() as int) <= normalized(b, text.len() as int) <= text.len()),
    ensures
        slice_of(TypeView::Text(text), a, b, w, from, d) == Err::<(World, Option<TypeView>), _>(
            RuntimeError::OutOfRange,
        ),
{
    assert(len_of(TypeView::Text(text), w, from, d) == Ok::<_, RuntimeError>(
        (w, Some(text.len())),
    ));
}

/// Two texts concatenate to one text, a text and a tuple to the tuple with
/// the text in front, a tuple and a text to the tuple with the text
/// behind, and two tuples to one tuple. Nothing else happens.
pub proof fn lemma_concatenation(
    a: Seq<char>,
    b: Seq<char>,
    xs: Seq<TypeView>,
    ys: Seq<TypeView>,
    w: World,
    from: Path,
    d: nat,
)
    ensures
        called(InstructionView::Concatenate(TypeView::Text(a), TypeView::Text(b)), w, from, d)
            == Ok::<_, RuntimeError>((w, TypeView::Text(a + b))),
        called(InstructionView::Concatenate(TypeView::Text(a), TypeView::Tuple(ys)), w, from, d)
            == Ok::<_, RuntimeError>((w, TypeView::Tuple(seq![TypeView::Text(a)] + ys))),
        called(InstructionView::Concatenate(TypeView::Tuple(xs), TypeView::Text(b)), w, from, d)
            == Ok::<_, RuntimeError>((w, TypeView::Tuple(xs.push(TypeView::Text(b))))),
        called(InstructionView::Concatenate(TypeView::Tuple(xs), TypeView::Tuple(ys)), w, from, d)
            == Ok::<_, RuntimeError>((w, TypeView::Tuple(xs + ys))),
{
}

/// Assigning a tuple to a tuple of names of another length ends the run.
pub proof fn lemma_arity_mismatch(
    names: Seq<TypeView>,
    values: Seq<TypeView>,
    w: World,
    from: Path,
    d: nat,
)
    requires
        names.len() != values.len(),
    ensures
        called(
            InstructionView::Assign(TypeView::Tuple(names), TypeView::Tuple(values)),
            w,
            from,
            d,
        ) == Err::<(World, TypeView), _>(RuntimeError::ArityMismatch),
{
}

/// Assigning a tuple of two texts to a tuple of two names binds the first
/// name to the first text and the second name to the second.
pub proof fn lemma_destructuring(
    a: Seq<char>,
    b: Seq<char>,
    x: Seq<char>,
    y: Seq<char>,
    w: World,
    from: Path,
    d: nat,
)
    requires
        d > 0,
    ensures
        called(
            InstructionView::Assign(
                TypeView::Tuple(seq![TypeView::Text(a), TypeView::Text(b)]),
                TypeView::Tuple(seq![TypeView::Text(x), TypeView::Text(y)]),
            ),
            w,
            from,
            d,
        ) == Ok::<_, RuntimeError>(
            (
                with_variable(with_variable(w, a, TypeView::Text(x)), b, TypeView::Text(y)),
                TypeView::Tuple(seq![TypeView::Text(x), TypeView::Text(y)]),
            ),
        ),
{
    let names = seq![TypeView::Text(a), TypeView::Text(b)];
    let values = seq![TypeView::Text(x), TypeView::Text(y)];
    let pairs = paired(names, values);
    let e = (d - 1) as nat;
    let w1 = with_variable(w, a, TypeView::Text(x));
    let w2 = with_variable(w1, b, TypeView::Text(y));
    assert(pairs[0] == (TypeView::Text(a), TypeView::Text(x)));
    assert(pairs[1] == (TypeView::Text(b), TypeView::Text(y)));
    assert(bound(pairs, 2, w2, from, e) == Ok::<World, RuntimeError>(w2));
    assert(string_of(TypeView::Text(b), w1, from, e) == Ok::<_, RuntimeError>((w1, Some(b))));
    assert(resolved(TypeView::Text(y), w1, from, e) == Ok::<_, RuntimeError>(
        (w1, TypeView::Text(y)),
    ));
    assert(bound(pairs, 1, w1, from, e) == Ok::<World, RuntimeError>(w2));
    assert(string_of(TypeView::Text(a), w, from, e) == Ok::<_, RuntimeError>((w, Some(a))));
    assert(resolved(TypeView::Text(x), w, from, e) == Ok::<_, RuntimeError>(
        (w, TypeView::Text(x)),
    ));
    assert(bound(pairs, 0, w, from, e) == Ok::<World, RuntimeError>(w2));
    assert(string_of(TypeView::Tuple(names), w, from, d) == Ok::<_, RuntimeError>(
        (w, None::<Seq<char>>),
    ));
    assert(tuple_of(TypeView::Tuple(names), w, from, d) == Ok::<_, RuntimeError>(
        (w, Some(names)),
    ));
    assert(tuple_of(TypeView::Tuple(values), w, from, d) == Ok::<_, RuntimeError>(
        (w, Some(values)),
    ));
}

} // verus!
