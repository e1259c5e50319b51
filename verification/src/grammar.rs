//! The grammar of Ogham, as the parser applies it.
//!
//! Each function here maps the parser's state before a construct to its
//! state after it, reading the token kinds (and, for error ranges, the token
//! offsets). The state is the position, the closed nodes, the open nodes and
//! the errors. `parse` ends in the state that `parsed_state` gives, so the
//! tree and the errors of any source are fixed by these definitions.

use vstd::prelude::*;
use crate::parser::{
    composition_at, inline_annotation_type_at, kind_at, nt_index, reserved_at, shape_include_at,
    shape_injection_at,
};
use crate::lexer::{LexItem, lex_spec};
use crate::parser::{item_kind, lex_error_spans};
use crate::syntax_kind::{SyntaxKind, kind_name};
use crate::tree::Child;

verus! {

/// A closed node: kind, children, first token, end token.
pub type NodeV = (SyntaxKind, Seq<Child>, int, int);

/// An open node: kind, children so far, first token.
pub type FrameV = (SyntaxKind, Seq<Child>, int);

/// An error: message, start byte, end byte.
pub type ErrV = (Seq<char>, int, int);

/// The parser's state: position, closed nodes, open nodes, errors.
pub type PState = (int, Seq<NodeV>, Seq<FrameV>, Seq<ErrV>);

/// What the parser reads: token kinds, token starts, token ends, source length.
pub type PCtx = (Seq<SyntaxKind>, Seq<int>, Seq<int>, int);

/// Whether the current token (trivia included) has kind `k`.
pub open spec fn g_at(c: PCtx, s: PState, k: SyntaxKind) -> bool {
    0 <= s.0 < c.0.len() && c.0[s.0] == k
}

/// Whether the first non-trivia token from the position has kind `k`.
pub open spec fn g_nt_is(c: PCtx, s: PState, k: SyntaxKind) -> bool {
    nt_index(c.0, s.0) < c.0.len() && c.0[nt_index(c.0, s.0)] == k
}

/// Whether the `n`-th non-trivia token ahead has kind `k`.
pub open spec fn g_peek(c: PCtx, s: PState, n: nat, k: SyntaxKind) -> bool {
    kind_at(c.0, s.0, n) == Some(k)
}

/// Byte offset of the current token, or the end of the source.
pub open spec fn g_offset(c: PCtx, s: PState) -> int {
    if 0 <= s.0 < c.0.len() {
        c.1[s.0]
    } else {
        c.3
    }
}

/// The position moved forward, and stays within the tokens.
pub open spec fn adv(c: PCtx, s: PState, a: PState) -> bool {
    s.0 < a.0 <= c.0.len()
}

/// The position did not move back, and stays within the tokens.
pub open spec fn fwd(c: PCtx, s: PState, a: PState) -> bool {
    s.0 <= a.0 <= c.0.len()
}

/// Consume the current token into the innermost open node.
pub open spec fn g_bump(c: PCtx, s: PState) -> PState {
    if 0 <= s.0 < c.0.len() {
        let f = s.2.last();
        (s.0 + 1, s.1, s.2.update(s.2.len() - 1, (f.0, f.1.push(Child::Token(s.0 as usize)), f.2)), s.3)
    } else {
        s
    }
}

/// Consume the trivia at the position.
pub open spec fn g_trivia(c: PCtx, s: PState) -> PState
    decreases c.0.len() - s.0,
{
    if 0 <= s.0 < c.0.len() && c.0[s.0].spec_is_trivia() {
        g_trivia(c, g_bump(c, s))
    } else {
        s
    }
}

/// Consuming trivia twice consumes no more than once.
pub proof fn lemma_trivia_idem(c: PCtx, s: PState)
    ensures
        g_trivia(c, g_trivia(c, s)) == g_trivia(c, s),
    decreases c.0.len() - s.0,
{
    if 0 <= s.0 < c.0.len() && c.0[s.0].spec_is_trivia() {
        lemma_trivia_idem(c, g_bump(c, s));
    }
}

/// Record an error.
pub open spec fn g_err(s: PState, start: int, end: int, msg: Seq<char>) -> PState {
    (s.0, s.1, s.2, s.3.push((msg, start, end)))
}

/// Open a node of kind `k` at the position.
pub open spec fn g_open(s: PState, k: SyntaxKind) -> PState {
    (s.0, s.1, s.2.push((k, Seq::empty(), s.0)), s.3)
}

/// Close the innermost open node and make it the last child of its parent.
#[verifier::opaque]
pub open spec fn g_close(s: PState) -> PState {
    let f = s.2.last();
    let r = s.2.drop_last();
    let p = r.last();
    (s.0, s.1.push((f.0, f.1, f.2, s.0)), r.update(r.len() - 1, (p.0, p.1.push(Child::Node(s.1.len() as usize)), p.2)), s.3)
}

/// Expect a token of kind `k` after the trivia; report it when missing.
#[verifier::opaque]
pub open spec fn g_expect(c: PCtx, s: PState, k: SyntaxKind) -> PState {
    let a = g_trivia(c, s);
    if g_at(c, a, k) {
        g_bump(c, a)
    } else {
        g_err(a, g_offset(c, a), g_offset(c, a), "expected "@ + kind_name(k))
    }
}

/// Consume a token of kind `k` after the trivia, if it is there.
#[verifier::opaque]
pub open spec fn g_eat(c: PCtx, s: PState, k: SyntaxKind) -> PState {
    let a = g_trivia(c, s);
    if g_at(c, a, k) {
        g_bump(c, a)
    } else {
        a
    }
}

/// Whether `g_eat` finds its token.
pub open spec fn g_eats(c: PCtx, s: PState, k: SyntaxKind) -> bool {
    g_at(c, g_trivia(c, s), k)
}

/// Wrap the current token in an `Error` node, reporting `msg`.
#[verifier::opaque]
pub open spec fn g_recover(c: PCtx, s: PState, msg: Seq<char>) -> PState {
    let off = g_offset(c, s);
    let end = if 0 <= s.0 < c.0.len() {
        c.2[s.0]
    } else {
        off
    };
    g_close(g_bump(c, g_open(g_err(s, off, end, msg), SyntaxKind::Error)))
}

/// If nothing was consumed since `saved`, force one token into an `Error` node.
#[verifier::opaque]
pub open spec fn g_progress(c: PCtx, s: PState, saved: int) -> PState {
    if s.0 == saved && saved < c.0.len() {
        g_recover(c, s, "unexpected token"@)
    } else {
        s
    }
}

/// Expect an identifier, or a keyword in its place.
#[verifier::opaque]
pub open spec fn g_ident(c: PCtx, s: PState) -> PState {
    let a = g_trivia(c, s);
    if 0 <= a.0 < c.0.len() && (c.0[a.0] == SyntaxKind::Ident || c.0[a.0].spec_is_keyword()) {
        g_bump(c, a)
    } else {
        g_err(a, g_offset(c, a), g_offset(c, a), "expected identifier"@)
    }
}

/// Expect an integer literal.
#[verifier::opaque]
pub open spec fn g_int(c: PCtx, s: PState) -> PState {
    let a = g_trivia(c, s);
    if g_at(c, a, SyntaxKind::IntLiteral) {
        g_bump(c, a)
    } else {
        g_err(a, g_offset(c, a), g_offset(c, a), "expected integer"@)
    }
}

/// `(sep ident)*`: while a `sep` comes, consume it and an identifier.
pub open spec fn g_sep_idents(c: PCtx, s: PState, sep: SyntaxKind) -> PState
    decreases c.0.len() - s.0,
{
    if g_eats(c, s, sep) {
        let a = g_ident(c, g_trivia(c, g_eat(c, s, sep)));
        if adv(c, s, a) {
            g_sep_idents(c, a, sep)
        } else {
            a
        }
    } else {
        g_eat(c, s, sep)
    }
}

/// `(. ident)*` for a qualified name.
pub open spec fn g_dots(c: PCtx, s: PState) -> PState
    decreases c.0.len() - s.0,
{
    if g_at(c, s, SyntaxKind::Dot) {
        let a = g_ident(c, g_bump(c, s));
        if adv(c, s, a) {
            g_dots(c, a)
        } else {
            a
        }
    } else {
        s
    }
}

/// `((. | / | -) ident)*` for an import path.
pub open spec fn g_path_parts(c: PCtx, s: PState) -> PState
    decreases c.0.len() - s.0,
{
    if g_at(c, s, SyntaxKind::Dot) || g_at(c, s, SyntaxKind::Slash) || g_at(c, s, SyntaxKind::Minus) {
        let a = g_ident(c, g_bump(c, s));
        if adv(c, s, a) {
            g_path_parts(c, a)
        } else {
            a
        }
    } else {
        s
    }
}

/// `(. (* | ident))*` after the first name of a mapping source.
pub open spec fn g_wild_parts(c: PCtx, s: PState) -> PState
    decreases c.0.len() - s.0,
{
    if g_at(c, s, SyntaxKind::Dot) {
        let b = g_bump(c, s);
        let a = if g_at(c, b, SyntaxKind::Star) {
            g_bump(c, b)
        } else {
            g_ident(c, b)
        };
        if adv(c, s, a) {
            g_wild_parts(c, a)
        } else {
            a
        }
    } else {
        s
    }
}

/// `, ident` pairs of an identifier list, up to a closing `>`.
pub open spec fn g_list_parts(c: PCtx, s: PState) -> PState
    decreases c.0.len() - s.0,
{
    if g_eats(c, s, SyntaxKind::Comma) {
        let a = g_trivia(c, g_eat(c, s, SyntaxKind::Comma));
        if g_nt_is(c, a, SyntaxKind::RAngle) {
            a
        } else {
            let b = g_ident(c, a);
            if adv(c, s, b) {
                g_list_parts(c, b)
            } else {
                b
            }
        }
    } else {
        g_eat(c, s, SyntaxKind::Comma)
    }
}

/// `package name ;`
#[verifier::opaque]
pub open spec fn g_package(c: PCtx, s: PState) -> PState {
    let a = g_open(s, SyntaxKind::PackageDecl);
    let a = g_trivia(c, a);
    let a = g_bump(c, a);
    let a = g_trivia(c, a);
    let a = g_ident(c, a);
    let a = g_expect(c, a, SyntaxKind::Semicolon);
    g_close(a)
}

/// An import path: identifiers joined by `.`, `/` or `-`.
#[verifier::opaque]
pub open spec fn g_import_path(c: PCtx, s: PState) -> PState {
    let a = g_open(s, SyntaxKind::ImportPath);
    let a = g_ident(c, a);
    let a = g_path_parts(c, a);
    g_close(a)
}

/// `import path (as name)? ;`
#[verifier::opaque]
pub open spec fn g_import(c: PCtx, s: PState) -> PState {
    let a = g_open(s, SyntaxKind::ImportDecl);
    let a = g_trivia(c, a);
    let a = g_bump(c, a);
    let a = g_trivia(c, a);
    let a = g_import_path(c, a);
    let a = g_trivia(c, a);
    let a = if g_at(c, a, SyntaxKind::KwAs) {
        g_ident(c, g_trivia(c, g_bump(c, a)))
    } else {
        a
    };
    let a = g_expect(c, a, SyntaxKind::Semicolon);
    g_close(a)
}

/// A qualified name: identifiers joined by `.`.
#[verifier::opaque]
pub open spec fn g_qname(c: PCtx, s: PState) -> PState {
    let a = g_open(s, SyntaxKind::QualifiedName);
    let a = g_trivia(c, a);
    let a = g_ident(c, a);
    let a = g_dots(c, a);
    g_close(a)
}

/// An identifier list: `a, b, c`, maybe with a trailing comma.
#[verifier::opaque]
pub open spec fn g_ident_list(c: PCtx, s: PState) -> PState {
    let a = g_open(s, SyntaxKind::IdentList);
    let a = g_trivia(c, a);
    let a = g_ident(c, a);
    let a = g_list_parts(c, a);
    g_close(a)
}

/// Type parameters: `<T, U>`.
#[verifier::opaque]
pub open spec fn g_type_params(c: PCtx, s: PState) -> PState {
    let a = g_open(s, SyntaxKind::TypeParams);
    let a = g_bump(c, a);
    let a = g_trivia(c, a);
    let a = g_ident(c, a);
    let a = g_sep_idents(c, a, SyntaxKind::Comma);
    let a = g_expect(c, a, SyntaxKind::RAngle);
    g_close(a)
}

/// A mapping source after `<-`: a dotted name whose parts may be `*`.
#[verifier::opaque]
pub open spec fn g_mapping(c: PCtx, s: PState) -> PState {
    let a = g_open(s, SyntaxKind::MappingSource);
    let a = g_bump(c, a);
    let a = g_trivia(c, a);
    let a = g_ident(c, a);
    let a = g_wild_parts(c, a);
    g_close(a)
}

/// A type reference: `[]T`, `map<K, V>`, `Pick<..>`, `Omit<..>` or a
/// qualified name with type arguments, then an optional `?`.
pub open spec fn g_type_ref(c: PCtx, s: PState) -> PState
    decreases c.0.len() - s.0, 20int,
{
    let a = g_open(s, SyntaxKind::TypeRef);
    let a = g_trivia(c, a);
    let a = if g_at(c, a, SyntaxKind::Brackets) {
        let b = g_bump(c, g_open(a, SyntaxKind::ArrayType));
        let b = if adv(c, s, b) {
            g_type_ref(c, b)
        } else {
            b
        };
        g_close(b)
    } else if g_at(c, a, SyntaxKind::KwMap) {
        let b = g_bump(c, g_open(a, SyntaxKind::MapType));
        let b = g_expect(c, b, SyntaxKind::LAngle);
        let b = if adv(c, s, b) {
            g_type_ref(c, b)
        } else {
            b
        };
        let b = g_expect(c, b, SyntaxKind::Comma);
        let b = if adv(c, s, b) {
            g_type_ref(c, b)
        } else {
            b
        };
        let b = g_expect(c, b, SyntaxKind::RAngle);
        g_close(b)
    } else if g_at(c, a, SyntaxKind::KwPick) {
        if fwd(c, s, a) {
            g_selection(c, a, SyntaxKind::PickType)
        } else {
            a
        }
    } else if g_at(c, a, SyntaxKind::KwOmit) {
        if fwd(c, s, a) {
            g_selection(c, a, SyntaxKind::OmitType)
        } else {
            a
        }
    } else {
        let b = g_trivia(c, g_qname(c, a));
        if g_at(c, b, SyntaxKind::LAngle) {
            if fwd(c, s, b) {
                g_type_args(c, b)
            } else {
                b
            }
        } else {
            b
        }
    };
    let a = g_trivia(c, a);
    let a = if g_at(c, a, SyntaxKind::Question) {
        g_close(g_bump(c, g_open(a, SyntaxKind::OptionalMarker)))
    } else {
        a
    };
    g_close(a)
}

/// Type arguments: `<` type refs joined by `,` `>`.
pub open spec fn g_type_args(c: PCtx, s: PState) -> PState
    decreases c.0.len() - s.0, 10int,
{
    let a = g_bump(c, s);
    let a = if adv(c, s, a) {
        g_type_ref(c, a)
    } else {
        a
    };
    let a = if adv(c, s, a) {
        g_targs_parts(c, a)
    } else {
        a
    };
    g_expect(c, a, SyntaxKind::RAngle)
}

/// `, type` pairs of type arguments.
pub open spec fn g_targs_parts(c: PCtx, s: PState) -> PState
    decreases c.0.len() - s.0, 5int,
{
    if g_eats(c, s, SyntaxKind::Comma) {
        let a = g_eat(c, s, SyntaxKind::Comma);
        let b = if adv(c, s, a) {
            g_type_ref(c, a)
        } else {
            a
        };
        if adv(c, s, b) {
            g_targs_parts(c, b)
        } else {
            b
        }
    } else {
        g_eat(c, s, SyntaxKind::Comma)
    }
}

/// `Pick<T, names>` or `Omit<T, names>`, as a node of kind `k`.
pub open spec fn g_selection(c: PCtx, s: PState, k: SyntaxKind) -> PState
    decreases c.0.len() - s.0, 10int,
{
    let a = g_open(s, k);
    let a = g_trivia(c, a);
    let a = g_bump(c, a);
    let a = g_expect(c, a, SyntaxKind::LAngle);
    let a = if adv(c, s, a) {
        g_type_ref(c, a)
    } else {
        a
    };
    let a = g_expect(c, a, SyntaxKind::Comma);
    let a = g_ident_list(c, a);
    let a = g_expect(c, a, SyntaxKind::RAngle);
    g_close(a)
}

/// The tokens that stand alone as an annotation value.
pub open spec fn g_literal_at(c: PCtx, s: PState) -> bool {
    ||| g_at(c, s, SyntaxKind::StringLiteral)
    ||| g_at(c, s, SyntaxKind::IntLiteral)
    ||| g_at(c, s, SyntaxKind::FloatLiteral)
    ||| g_at(c, s, SyntaxKind::KwTrue)
    ||| g_at(c, s, SyntaxKind::KwFalse)
    ||| g_at(c, s, SyntaxKind::KwNow)
    ||| g_at(c, s, SyntaxKind::Ident)
}

/// An annotation value: `{ entries }` or a literal.
pub open spec fn g_value(c: PCtx, s: PState) -> PState
    decreases c.0.len() - s.0, 20int,
{
    let a = g_open(s, SyntaxKind::AnnotationValue);
    let a = g_trivia(c, a);
    let a = if g_at(c, a, SyntaxKind::LBrace) {
        let b = g_trivia(c, g_bump(c, a));
        let b = if !g_nt_is(c, b, SyntaxKind::RBrace) {
            if adv(c, s, b) {
                g_entries(c, b)
            } else {
                b
            }
        } else {
            b
        };
        g_expect(c, b, SyntaxKind::RBrace)
    } else {
        if fwd(c, s, a) {
            g_lit_or_value(c, a)
        } else {
            a
        }
    };
    g_close(a)
}

/// Entries of a braced annotation value, joined by `,`.
pub open spec fn g_entries(c: PCtx, s: PState) -> PState
    decreases c.0.len() - s.0, 40int,
{
    let a = if fwd(c, s, s) {
        g_entry(c, s)
    } else {
        s
    };
    if fwd(c, s, a) {
        g_entry_parts(c, a)
    } else {
        a
    }
}

/// `, entry` pairs, up to a closing `}`.
pub open spec fn g_entry_parts(c: PCtx, s: PState) -> PState
    decreases c.0.len() - s.0, 35int,
{
    if g_eats(c, s, SyntaxKind::Comma) {
        let a = g_trivia(c, g_eat(c, s, SyntaxKind::Comma));
        if g_nt_is(c, a, SyntaxKind::RBrace) {
            a
        } else {
            let b = if adv(c, s, a) {
                g_entry(c, a)
            } else {
                a
            };
            if adv(c, s, b) {
                g_entry_parts(c, b)
            } else {
                b
            }
        }
    } else {
        g_eat(c, s, SyntaxKind::Comma)
    }
}

/// One entry: `key = value`, `key: value` or a value.
pub open spec fn g_entry(c: PCtx, s: PState) -> PState
    decreases c.0.len() - s.0, 30int,
{
    let a = g_trivia(c, s);
    if g_peek(c, a, 1, SyntaxKind::Eq) || g_peek(c, a, 1, SyntaxKind::Colon) {
        let b = g_trivia(c, g_bump(c, g_trivia(c, g_bump(c, a))));
        if adv(c, s, b) {
            g_value(c, b)
        } else {
            b
        }
    } else {
        if fwd(c, s, a) {
            g_value(c, a)
        } else {
            a
        }
    }
}

/// A literal, a negative number, a braced value, or an error.
pub open spec fn g_lit_or_value(c: PCtx, s: PState) -> PState
    decreases c.0.len() - s.0, 10int,
{
    if g_literal_at(c, s) {
        g_bump(c, s)
    } else if g_at(c, s, SyntaxKind::Minus) {
        let a = g_bump(c, s);
        if g_at(c, a, SyntaxKind::IntLiteral) || g_at(c, a, SyntaxKind::FloatLiteral) {
            g_bump(c, a)
        } else {
            a
        }
    } else if g_at(c, s, SyntaxKind::LBrace) {
        let a = g_trivia(c, g_bump(c, s));
        let a = if !g_nt_is(c, a, SyntaxKind::RBrace) {
            if adv(c, s, a) {
                g_entries(c, a)
            } else {
                a
            }
        } else {
            a
        };
        g_expect(c, a, SyntaxKind::RBrace)
    } else {
        g_recover(c, s, "expected value"@)
    }
}

/// One annotation argument: `name = value` or a value.
#[verifier::opaque]
pub open spec fn g_arg(c: PCtx, s: PState) -> PState {
    let a = g_open(s, SyntaxKind::AnnotationArg);
    let a = g_trivia(c, a);
    let a = if g_peek(c, a, 1, SyntaxKind::Eq) {
        g_trivia(c, g_bump(c, g_ident(c, a)))
    } else {
        a
    };
    let a = g_value(c, a);
    g_close(a)
}

/// `, arg` pairs, up to a closing `)`.
pub open spec fn g_arg_parts(c: PCtx, s: PState) -> PState
    decreases c.0.len() - s.0,
{
    if g_eats(c, s, SyntaxKind::Comma) {
        let a = g_trivia(c, g_eat(c, s, SyntaxKind::Comma));
        if g_nt_is(c, a, SyntaxKind::RParen) {
            a
        } else {
            let b = g_arg(c, a);
            if adv(c, s, b) {
                g_arg_parts(c, b)
            } else {
                b
            }
        }
    } else {
        g_eat(c, s, SyntaxKind::Comma)
    }
}

/// Annotation arguments, joined by `,`.
#[verifier::opaque]
pub open spec fn g_args(c: PCtx, s: PState) -> PState {
    let a = g_open(s, SyntaxKind::AnnotationArgs);
    let a = g_arg(c, a);
    let a = g_arg_parts(c, a);
    g_close(a)
}

/// `( args? )` after an annotation's name, the `(` already consumed.
pub open spec fn g_call_args(c: PCtx, s: PState) -> PState {
    let a = g_trivia(c, s);
    let a = if !g_nt_is(c, a, SyntaxKind::RParen) {
        g_args(c, a)
    } else {
        a
    };
    g_expect(c, a, SyntaxKind::RParen)
}

/// An annotation call: `@default(..)` and the like, or `@lib::name(..)`.
#[verifier::opaque]
pub open spec fn g_call(c: PCtx, s: PState) -> PState {
    let a = g_open(s, SyntaxKind::AnnotationCall);
    let a = g_trivia(c, a);
    let a = g_bump(c, a);
    let a = g_trivia(c, a);
    let a = if g_at(c, a, SyntaxKind::KwDefault) || g_at(c, a, SyntaxKind::KwCast) || g_at(
        c,
        a,
        SyntaxKind::KwRemoved,
    ) || g_at(c, a, SyntaxKind::KwReserved) {
        let b = g_bump(c, a);
        if g_eats(c, b, SyntaxKind::LParen) {
            g_call_args(c, g_eat(c, b, SyntaxKind::LParen))
        } else {
            g_eat(c, b, SyntaxKind::LParen)
        }
    } else {
        let b = g_ident(c, a);
        let b = g_expect(c, b, SyntaxKind::ColonColon);
        let b = g_trivia(c, b);
        let b = g_ident(c, b);
        let b = g_trivia(c, b);
        if g_at(c, b, SyntaxKind::LParen) {
            g_call_args(c, g_bump(c, b))
        } else {
            b
        }
    };
    g_close(a)
}

/// Annotation calls, while an `@` comes.
pub open spec fn g_calls(c: PCtx, s: PState) -> PState
    decreases c.0.len() - s.0,
{
    if g_nt_is(c, s, SyntaxKind::At) {
        let a = g_call(c, s);
        if adv(c, s, a) {
            g_calls(c, a)
        } else {
            a
        }
    } else {
        s
    }
}

/// Annotation calls after a shape field, each followed by trivia.
pub open spec fn g_field_calls(c: PCtx, s: PState) -> PState
    decreases c.0.len() - s.0,
{
    if g_nt_is(c, s, SyntaxKind::At) {
        let a = g_trivia(c, g_call(c, s));
        if adv(c, s, a) {
            g_field_calls(c, a)
        } else {
            a
        }
    } else {
        s
    }
}

/// A field: `type name = N (<- source)? ;`.
#[verifier::opaque]
pub open spec fn g_field(c: PCtx, s: PState, k: SyntaxKind) -> PState {
    let a = g_open(s, k);
    let a = g_trivia(c, a);
    let a = g_type_ref(c, a);
    let a = g_trivia(c, a);
    let a = g_ident(c, a);
    let a = g_expect(c, a, SyntaxKind::Eq);
    let a = g_trivia(c, a);
    let a = g_int(c, a);
    let a = g_trivia(c, a);
    let a = if g_at(c, a, SyntaxKind::BackArrow) {
        g_mapping(c, a)
    } else {
        a
    };
    let a = g_expect(c, a, SyntaxKind::Semicolon);
    g_close(a)
}

/// A shape injection: `Name(N..M)`.
#[verifier::opaque]
pub open spec fn g_injection(c: PCtx, s: PState) -> PState {
    let a = g_open(s, SyntaxKind::ShapeInjection);
    let a = g_trivia(c, a);
    let a = g_qname(c, a);
    let a = g_expect(c, a, SyntaxKind::LParen);
    let a = g_trivia(c, a);
    let a = g_int(c, a);
    let a = g_expect(c, a, SyntaxKind::DotDot);
    let a = g_trivia(c, a);
    let a = g_int(c, a);
    let a = g_expect(c, a, SyntaxKind::RParen);
    g_close(a)
}

/// A field, or a shape injection where one lies ahead.
#[verifier::opaque]
pub open spec fn g_field_or_injection(c: PCtx, s: PState) -> PState {
    let a = g_trivia(c, s);
    if shape_injection_at(c.0, a.0) {
        g_injection(c, a)
    } else {
        g_field(c, a, SyntaxKind::FieldDecl)
    }
}

/// `@reserved(N);`
#[verifier::opaque]
pub open spec fn g_reserved(c: PCtx, s: PState) -> PState {
    let a = g_open(s, SyntaxKind::ReservedDecl);
    let a = g_trivia(c, a);
    let a = g_bump(c, a);
    let a = g_trivia(c, a);
    let a = g_bump(c, a);
    let a = g_expect(c, a, SyntaxKind::LParen);
    let a = g_trivia(c, a);
    let a = g_int(c, a);
    let a = g_expect(c, a, SyntaxKind::RParen);
    let a = g_eat(c, a, SyntaxKind::Semicolon);
    g_close(a)
}

/// The braced bodies whose members are parsed one by one up to `}`.
pub enum Body {
    Oneof,
    Enum,
    Shape,
    Service,
    Annotation,
}

/// One member of a body of kind `b`, from its first token.
pub open spec fn g_member(c: PCtx, a: PState, b: Body) -> PState {
    match b {
        Body::Oneof => g_oneof_member(c, a),
        Body::Enum => g_enum_member(c, a),
        Body::Shape => g_shape_member(c, a),
        Body::Service => g_service_member(c, a),
        Body::Annotation => g_annotation_member(c, a),
    }
}

/// The members of a body of kind `b` up to `}`: each one parsed from its
/// first token, then forced forward if it consumed nothing.
pub open spec fn g_braced_loop(c: PCtx, s: PState, b: Body) -> PState
    decreases c.0.len() - s.0,
{
    let a = g_trivia(c, s);
    if a.0 >= c.0.len() || c.0[a.0] == SyntaxKind::RBrace {
        a
    } else {
        let d = g_progress(c, g_member(c, a, b), a.0);
        if adv(c, s, d) {
            g_braced_loop(c, d, b)
        } else {
            d
        }
    }
}

/// A member of a oneof body.
pub open spec fn g_oneof_member(c: PCtx, a: PState) -> PState {
    if c.0[a.0] == SyntaxKind::At {
        g_field(c, g_calls(c, a), SyntaxKind::OneofField)
    } else {
        g_field(c, a, SyntaxKind::OneofField)
    }
}

/// `oneof name { fields }`
#[verifier::opaque]
pub open spec fn g_oneof(c: PCtx, s: PState) -> PState {
    let a = g_open(s, SyntaxKind::OneofDecl);
    let a = g_trivia(c, a);
    let a = g_bump(c, a);
    let a = g_trivia(c, a);
    let a = g_ident(c, a);
    let a = g_expect(c, a, SyntaxKind::LBrace);
    let a = g_braced_loop(c, a, Body::Oneof);
    let a = g_expect(c, a, SyntaxKind::RBrace);
    g_close(a)
}

/// One enum value, after its annotations: `Name = N;`.
#[verifier::opaque]
pub open spec fn g_enum_value(c: PCtx, s: PState) -> PState {
    let a = g_open(s, SyntaxKind::EnumValueDecl);
    let a = g_trivia(c, a);
    let a = g_ident(c, a);
    let a = g_expect(c, a, SyntaxKind::Eq);
    let a = g_trivia(c, a);
    let a = g_int(c, a);
    let a = g_expect(c, a, SyntaxKind::Semicolon);
    g_close(a)
}

/// A member of an enum body.
pub open spec fn g_enum_member(c: PCtx, a: PState) -> PState {
    if c.0[a.0] == SyntaxKind::At {
        g_enum_value(c, g_trivia(c, g_calls(c, a)))
    } else {
        g_enum_value(c, a)
    }
}

/// `enum Name { values }`
#[verifier::opaque]
pub open spec fn g_enum(c: PCtx, s: PState) -> PState {
    let a = g_open(s, SyntaxKind::EnumDecl);
    let a = g_trivia(c, a);
    let a = g_bump(c, a);
    let a = g_trivia(c, a);
    let a = g_ident(c, a);
    let a = g_expect(c, a, SyntaxKind::LBrace);
    let a = g_braced_loop(c, a, Body::Enum);
    let a = g_expect(c, a, SyntaxKind::RBrace);
    g_close(a)
}

/// A nested enum declaration.
#[verifier::opaque]
pub open spec fn g_nested_enum(c: PCtx, s: PState) -> PState {
    g_close(g_enum(c, g_open(s, SyntaxKind::NestedEnumDecl)))
}

/// A shape field: `type name @annotations* ;`.
#[verifier::opaque]
pub open spec fn g_shape_field(c: PCtx, s: PState) -> PState {
    let a = g_open(s, SyntaxKind::ShapeField);
    let a = g_trivia(c, a);
    let a = g_type_ref(c, a);
    let a = g_trivia(c, a);
    let a = g_ident(c, a);
    let a = g_trivia(c, a);
    let a = g_field_calls(c, a);
    let a = g_expect(c, a, SyntaxKind::Semicolon);
    g_close(a)
}

/// A shape include: `Name, Other;`.
#[verifier::opaque]
pub open spec fn g_shape_incl(c: PCtx, s: PState) -> PState {
    let a = g_open(s, SyntaxKind::ShapeInclude);
    let a = g_trivia(c, a);
    let a = g_bump(c, a);
    let a = g_sep_idents(c, a, SyntaxKind::Comma);
    let a = g_expect(c, a, SyntaxKind::Semicolon);
    g_close(a)
}

/// A member of a shape body without annotations: an include or a field.
#[verifier::opaque]
pub open spec fn g_shape_plain(c: PCtx, s: PState) -> PState {
    let a = g_trivia(c, s);
    if shape_include_at(c.0, a.0) {
        g_shape_incl(c, a)
    } else {
        g_shape_field(c, a)
    }
}

/// A member of a shape body.
pub open spec fn g_shape_member(c: PCtx, a: PState) -> PState {
    if c.0[a.0] == SyntaxKind::At {
        g_shape_field(c, g_trivia(c, g_calls(c, a)))
    } else {
        g_shape_plain(c, a)
    }
}

/// `shape Name<T>? { members }`
#[verifier::opaque]
pub open spec fn g_shape(c: PCtx, s: PState) -> PState {
    let a = g_open(s, SyntaxKind::ShapeDecl);
    let a = g_trivia(c, a);
    let a = g_bump(c, a);
    let a = g_trivia(c, a);
    let a = g_ident(c, a);
    let a = g_trivia(c, a);
    let a = if g_at(c, a, SyntaxKind::LAngle) {
        g_type_params(c, a)
    } else {
        a
    };
    let a = g_expect(c, a, SyntaxKind::LBrace);
    let a = g_braced_loop(c, a, Body::Shape);
    let a = g_expect(c, a, SyntaxKind::RBrace);
    g_close(a)
}

/// A member of an inline type.
pub open spec fn g_inline_member(c: PCtx, a: PState) -> PState {
    if c.0[a.0] == SyntaxKind::At {
        g_field_or_injection(c, g_calls(c, a))
    } else {
        g_field_or_injection(c, a)
    }
}

/// The members of an inline type up to `}`.
pub open spec fn g_inline_parts(c: PCtx, s: PState) -> PState
    decreases c.0.len() - s.0,
{
    let a = g_trivia(c, s);
    if a.0 >= c.0.len() || c.0[a.0] == SyntaxKind::RBrace {
        a
    } else {
        let d = g_progress(c, g_inline_member(c, a), a.0);
        if adv(c, s, d) {
            g_inline_parts(c, d)
        } else {
            d
        }
    }
}

/// An inline type: `{ fields }`.
#[verifier::opaque]
pub open spec fn g_inline_type(c: PCtx, s: PState) -> PState {
    let a = g_open(s, SyntaxKind::InlineType);
    let a = g_expect(c, a, SyntaxKind::LBrace);
    let a = g_inline_parts(c, a);
    let a = g_expect(c, a, SyntaxKind::RBrace);
    g_close(a)
}

/// An rpc parameter: `void`, `stream T`, an inline type or a type.
#[verifier::opaque]
pub open spec fn g_rpc_param(c: PCtx, s: PState) -> PState {
    let a = g_open(s, SyntaxKind::RpcParam);
    let a = g_trivia(c, a);
    let a = if g_at(c, a, SyntaxKind::KwVoid) {
        g_bump(c, a)
    } else if g_at(c, a, SyntaxKind::KwStream) {
        let b = g_trivia(c, g_bump(c, a));
        if g_at(c, b, SyntaxKind::LBrace) {
            g_inline_type(c, b)
        } else {
            g_type_ref(c, b)
        }
    } else if g_at(c, a, SyntaxKind::LBrace) {
        g_inline_type(c, a)
    } else {
        g_type_ref(c, a)
    };
    g_close(a)
}

/// `rpc Name(param) -> param;`
#[verifier::opaque]
pub open spec fn g_rpc(c: PCtx, s: PState) -> PState {
    let a = g_open(s, SyntaxKind::RpcDecl);
    let a = g_trivia(c, a);
    let a = g_bump(c, a);
    let a = g_trivia(c, a);
    let a = g_ident(c, a);
    let a = g_expect(c, a, SyntaxKind::LParen);
    let a = g_rpc_param(c, a);
    let a = g_expect(c, a, SyntaxKind::RParen);
    let a = g_expect(c, a, SyntaxKind::Arrow);
    let a = g_rpc_param(c, a);
    let a = g_expect(c, a, SyntaxKind::Semicolon);
    g_close(a)
}

/// A member of a service body.
pub open spec fn g_service_member(c: PCtx, a: PState) -> PState {
    let k = c.0[a.0];
    if k == SyntaxKind::At {
        let b = g_trivia(c, g_calls(c, a));
        if g_nt_is(c, b, SyntaxKind::KwRpc) {
            g_rpc(c, b)
        } else {
            b
        }
    } else if k == SyntaxKind::KwRpc {
        g_rpc(c, a)
    } else {
        g_recover(c, a, "expected 'rpc' declaration"@)
    }
}

/// `service Name { rpcs }`
#[verifier::opaque]
pub open spec fn g_service(c: PCtx, s: PState) -> PState {
    let a = g_open(s, SyntaxKind::ServiceDecl);
    let a = g_trivia(c, a);
    let a = g_bump(c, a);
    let a = g_trivia(c, a);
    let a = g_ident(c, a);
    let a = g_expect(c, a, SyntaxKind::LBrace);
    let a = g_braced_loop(c, a, Body::Service);
    let a = g_expect(c, a, SyntaxKind::RBrace);
    g_close(a)
}

/// An alias after `=`: `Pick<..>`, `Omit<..>` or a type, then `;`.
#[verifier::opaque]
pub open spec fn g_alias(c: PCtx, s: PState) -> PState {
    let a = g_open(s, SyntaxKind::TypeAlias);
    let a = g_bump(c, a);
    let a = g_trivia(c, a);
    let a = if g_nt_is(c, a, SyntaxKind::KwPick) {
        g_selection(c, a, SyntaxKind::PickType)
    } else if g_nt_is(c, a, SyntaxKind::KwOmit) {
        g_selection(c, a, SyntaxKind::OmitType)
    } else {
        g_type_ref(c, a)
    };
    let a = g_expect(c, a, SyntaxKind::Semicolon);
    g_close(a)
}

/// `type Name<T>? { body }` or `type Name = alias;`.
pub open spec fn g_type_decl(c: PCtx, s: PState) -> PState
    decreases c.0.len() - s.0, 10int,
{
    let a = g_open(s, SyntaxKind::TypeDecl);
    let a = g_trivia(c, a);
    let a = g_bump(c, a);
    let a = g_trivia(c, a);
    let a = g_ident(c, a);
    let a = g_trivia(c, a);
    let a = if g_at(c, a, SyntaxKind::LAngle) {
        let b = g_trivia(c, g_type_params(c, a));
        if adv(c, s, b) {
            g_type_body(c, b)
        } else {
            b
        }
    } else if g_at(c, a, SyntaxKind::Eq) {
        g_alias(c, a)
    } else if g_at(c, a, SyntaxKind::LBrace) {
        if adv(c, s, a) {
            g_type_body(c, a)
        } else {
            a
        }
    } else {
        g_err(a, g_offset(c, a), g_offset(c, a), "expected '=', '<', or '{'"@)
    };
    g_close(a)
}

/// `{ members }` of a type.
pub open spec fn g_type_body(c: PCtx, s: PState) -> PState
    decreases c.0.len() - s.0, 40int,
{
    let a = g_open(s, SyntaxKind::TypeBody);
    let a = g_expect(c, a, SyntaxKind::LBrace);
    let a = if fwd(c, s, a) {
        g_body_parts(c, a)
    } else {
        a
    };
    let a = g_expect(c, a, SyntaxKind::RBrace);
    g_close(a)
}

/// The members of a type body, up to `}`.
pub open spec fn g_body_parts(c: PCtx, s: PState) -> PState
    decreases c.0.len() - s.0, 35int,
{
    let a = g_trivia(c, s);
    if a.0 >= c.0.len() || c.0[a.0] == SyntaxKind::RBrace || !fwd(c, s, a) {
        a
    } else {
        let k = c.0[a.0];
        let b = if k == SyntaxKind::At {
            g_type_member(c, a)
        } else if k == SyntaxKind::KwOneof {
            g_oneof(c, a)
        } else if k == SyntaxKind::KwType {
            g_nested_type(c, a)
        } else if k == SyntaxKind::KwEnum {
            g_nested_enum(c, a)
        } else {
            g_field_or_injection(c, a)
        };
        let d = g_progress(c, b, a.0);
        if adv(c, s, d) {
            g_body_parts(c, d)
        } else {
            d
        }
    }
}

/// A member of a type body that starts with annotations.
pub open spec fn g_type_member(c: PCtx, s: PState) -> PState
    decreases c.0.len() - s.0, 30int,
{
    let a = g_trivia(c, s);
    if reserved_at(c.0, a.0) {
        g_reserved(c, a)
    } else {
        let b = g_trivia(c, g_calls(c, a));
        if g_at(c, b, SyntaxKind::KwOneof) {
            g_oneof(c, b)
        } else if g_at(c, b, SyntaxKind::KwType) {
            if fwd(c, s, b) {
                g_nested_type(c, b)
            } else {
                b
            }
        } else if g_at(c, b, SyntaxKind::KwEnum) {
            g_nested_enum(c, b)
        } else {
            g_field_or_injection(c, b)
        }
    }
}

/// A nested type declaration.
pub open spec fn g_nested_type(c: PCtx, s: PState) -> PState
    decreases c.0.len() - s.0, 20int,
{
    let a = g_open(s, SyntaxKind::NestedTypeDecl);
    let a = if fwd(c, s, a) {
        g_type_decl(c, a)
    } else {
        a
    };
    g_close(a)
}

/// `lib::Name(args)?;` inside an annotation declaration.
#[verifier::opaque]
pub open spec fn g_composition(c: PCtx, s: PState) -> PState {
    let a = g_open(s, SyntaxKind::AnnotationComposition);
    let a = g_trivia(c, a);
    let a = g_bump(c, a);
    let a = g_trivia(c, a);
    let a = g_bump(c, a);
    let a = g_trivia(c, a);
    let a = g_ident(c, a);
    let a = g_trivia(c, a);
    let a = if g_at(c, a, SyntaxKind::LParen) {
        g_call_args(c, g_bump(c, a))
    } else {
        a
    };
    let a = g_expect(c, a, SyntaxKind::Semicolon);
    g_close(a)
}

/// An annotation field: `type ?? name (= value)? ;`.
#[verifier::opaque]
pub open spec fn g_annotation_field(c: PCtx, s: PState) -> PState {
    let a = g_open(s, SyntaxKind::AnnotationField);
    let a = g_trivia(c, a);
    let a = g_type_ref(c, a);
    let a = g_trivia(c, a);
    let a = if g_at(c, a, SyntaxKind::Question) {
        g_trivia(c, g_bump(c, a))
    } else {
        a
    };
    let a = g_ident(c, a);
    let a = g_trivia(c, a);
    let a = if g_at(c, a, SyntaxKind::Eq) {
        g_lit_or_value(c, g_trivia(c, g_bump(c, a)))
    } else {
        a
    };
    let a = g_expect(c, a, SyntaxKind::Semicolon);
    g_close(a)
}

/// A member of an annotation body: a composition, an inline type member or a field.
pub open spec fn g_annotation_member(c: PCtx, s: PState) -> PState
    decreases c.0.len() - s.0, 20int,
{
    let a = g_trivia(c, s);
    if composition_at(c.0, a.0) {
        g_composition(c, a)
    } else if inline_annotation_type_at(c.0, a.0) {
        if fwd(c, s, a) {
            g_inline_annotation_member(c, a)
        } else {
            a
        }
    } else {
        g_annotation_field(c, a)
    }
}

/// `name: { members }` inside an annotation body.
pub open spec fn g_inline_annotation_member(c: PCtx, s: PState) -> PState
    decreases c.0.len() - s.0, 10int,
{
    let a = g_open(s, SyntaxKind::AnnotationField);
    let a = g_trivia(c, a);
    let a = g_bump(c, a);
    let a = g_trivia(c, a);
    let a = g_bump(c, a);
    let a = if adv(c, s, a) {
        g_inline_annotation_body(c, a)
    } else {
        a
    };
    g_close(a)
}

/// `{ members }` of an inline annotation type.
pub open spec fn g_inline_annotation_body(c: PCtx, s: PState) -> PState
    decreases c.0.len() - s.0, 30int,
{
    let a = g_open(s, SyntaxKind::InlineAnnotationType);
    let a = g_expect(c, a, SyntaxKind::LBrace);
    let a = if fwd(c, s, a) {
        g_annotation_parts(c, a)
    } else {
        a
    };
    let a = g_expect(c, a, SyntaxKind::RBrace);
    g_close(a)
}

/// The members of an annotation body, up to `}`.
pub open spec fn g_annotation_parts(c: PCtx, s: PState) -> PState
    decreases c.0.len() - s.0, 25int,
{
    let a = g_trivia(c, s);
    if a.0 >= c.0.len() || c.0[a.0] == SyntaxKind::RBrace || !fwd(c, s, a) {
        a
    } else {
        let d = g_progress(c, g_annotation_member(c, a), a.0);
        if adv(c, s, d) {
            g_annotation_parts(c, d)
        } else {
            d
        }
    }
}

/// `for target | target`
#[verifier::opaque]
pub open spec fn g_targets(c: PCtx, s: PState) -> PState {
    let a = g_open(s, SyntaxKind::AnnotationTargets);
    let a = g_trivia(c, a);
    let a = g_ident(c, a);
    let a = g_sep_idents(c, a, SyntaxKind::Pipe);
    g_close(a)
}

/// `annotation Name for targets { members }`
#[verifier::opaque]
pub open spec fn g_annotation_decl(c: PCtx, s: PState) -> PState {
    let a = g_open(s, SyntaxKind::AnnotationDecl);
    let a = g_trivia(c, a);
    let a = g_bump(c, a);
    let a = g_trivia(c, a);
    let a = g_ident(c, a);
    let a = g_trivia(c, a);
    let a = g_expect(c, a, SyntaxKind::KwFor);
    let a = g_targets(c, a);
    let a = g_expect(c, a, SyntaxKind::LBrace);
    let a = g_braced_loop(c, a, Body::Annotation);
    let a = g_expect(c, a, SyntaxKind::RBrace);
    g_close(a)
}

/// A top-level declaration with its annotations.
#[verifier::opaque]
pub open spec fn g_top_level(c: PCtx, s: PState) -> PState {
    let a = g_trivia(c, s);
    let has = g_nt_is(c, a, SyntaxKind::At);
    let a = g_trivia(c, g_calls(c, a));
    if g_at(c, a, SyntaxKind::KwType) {
        g_type_decl(c, a)
    } else if g_at(c, a, SyntaxKind::KwShape) {
        g_shape(c, a)
    } else if g_at(c, a, SyntaxKind::KwEnum) {
        g_enum(c, a)
    } else if g_at(c, a, SyntaxKind::KwService) {
        g_service(c, a)
    } else if g_at(c, a, SyntaxKind::KwAnnotation) {
        g_annotation_decl(c, a)
    } else if has {
        g_recover(c, a, "expected declaration after annotation"@)
    } else {
        a
    }
}

/// Whether kind `k` starts a top-level declaration.
pub open spec fn top_level_start(k: SyntaxKind) -> bool {
    ||| k == SyntaxKind::KwType
    ||| k == SyntaxKind::At
    ||| k == SyntaxKind::KwAnnotation
    ||| k == SyntaxKind::KwShape
    ||| k == SyntaxKind::KwEnum
    ||| k == SyntaxKind::KwService
}

/// The declarations of a file, to the end of the tokens.
pub open spec fn g_decls(c: PCtx, s: PState) -> PState
    decreases c.0.len() - s.0,
{
    let a = g_trivia(c, s);
    if a.0 >= c.0.len() {
        a
    } else {
        let k = c.0[a.0];
        let b = if k == SyntaxKind::KwImport {
            g_import(c, a)
        } else if top_level_start(k) {
            g_top_level(c, a)
        } else {
            g_recover(c, a, "expected top-level declaration"@)
        };
        let d = g_progress(c, b, a.0);
        if adv(c, s, d) {
            g_decls(c, d)
        } else {
            d
        }
    }
}

/// A file: an optional package declaration, then declarations.
#[verifier::opaque]
pub open spec fn g_root(c: PCtx, s: PState) -> PState {
    let a = g_trivia(c, s);
    let a = if g_nt_is(c, a, SyntaxKind::KwPackage) {
        g_package(c, a)
    } else {
        a
    };
    let a = g_decls(c, a);
    g_trivia(c, a)
}

/// What the parser reads from source `src`: the kinds, starts and ends of
/// its lexed items, and its length.
pub open spec fn lex_ctx(src: Seq<u8>) -> PCtx {
    let l = lex_spec(src);
    (
        l.map_values(|it: LexItem| item_kind(it)),
        l.map_values(|it: LexItem| it.1),
        l.map_values(|it: LexItem| it.2),
        src.len() as int,
    )
}

/// The lexer's errors: "unexpected character" over each byte run that
/// starts no token, in order.
pub open spec fn lex_errors(src: Seq<u8>) -> Seq<ErrV> {
    lex_error_spans(lex_spec(src)).map_values(|sp: (int, int)| ("unexpected character"@, sp.0, sp.1))
}

/// The state the parser starts from: at the first token, with the file's
/// root node open and the lexer's errors recorded.
pub open spec fn start_state(src: Seq<u8>) -> PState {
    (0, Seq::empty(), seq![(SyntaxKind::Root, Seq::<Child>::empty(), 0int)], lex_errors(src))
}

/// The state the parser ends in on source `src`.
pub open spec fn parsed_state(src: Seq<u8>) -> PState {
    g_root(lex_ctx(src), start_state(src))
}

/// The nodes of the tree of `src`, the root last.
pub open spec fn tree_nodes(src: Seq<u8>) -> Seq<NodeV> {
    let s = parsed_state(src);
    let r = s.2.last();
    s.1.push((r.0, r.1, r.2, s.0))
}

/// The errors reported on `src`: the lexer's, then the syntax errors.
pub open spec fn parse_errors(src: Seq<u8>) -> Seq<ErrV> {
    parsed_state(src).3
}

} // verus!
