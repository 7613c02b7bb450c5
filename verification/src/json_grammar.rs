//! JSON values as trees, the tokens that write each one, and the proof that
//! the validator accepts exactly the token lists that write one value.
use vstd::prelude::*;
use crate::json_lexer::{lex, JsonErrorModel, TokenModel};
use crate::json_parser::{
    array_end, elements_end, json_check, lemma_value_end_advances, members_end, object_end,
    parse_from, value_end,
};

verus! {

// ── Values as trees ─────────────────────────────────────────────────────────

/// A JSON value.
pub enum JsonValue {
    Str(Seq<char>),
    Num(Seq<char>),
    True,
    False,
    Null,
    Array(JsonElements),
    Object(JsonMembers),
}

/// The values of an array, in order.
pub enum JsonElements {
    Nil,
    Cons(Box<JsonValue>, Box<JsonElements>),
}

/// The members of an object, in order: each a key and a value.
pub enum JsonMembers {
    Nil,
    Cons(Seq<char>, Box<JsonValue>, Box<JsonMembers>),
}

// ── The tokens that write a value ───────────────────────────────────────────

/// The tokens of a value: a scalar is one token; an array is its values
/// between brackets, separated by commas; an object is its `key : value`
/// members between braces, separated by commas.
pub open spec fn render(v: JsonValue) -> Seq<TokenModel>
    decreases v,
{
    match v {
        JsonValue::Str(s) => seq![TokenModel::Str(s)],
        JsonValue::Num(n) => seq![TokenModel::Num(n)],
        JsonValue::True => seq![TokenModel::True],
        JsonValue::False => seq![TokenModel::False],
        JsonValue::Null => seq![TokenModel::Null],
        JsonValue::Array(es) => seq![TokenModel::LBracket] + render_elements(es) + seq![
            TokenModel::RBracket,
        ],
        JsonValue::Object(ms) => seq![TokenModel::LBrace] + render_members(ms) + seq![
            TokenModel::RBrace,
        ],
    }
}

/// The values of an array, separated by commas.
pub open spec fn render_elements(es: JsonElements) -> Seq<TokenModel>
    decreases es,
{
    match es {
        JsonElements::Nil => seq![],
        JsonElements::Cons(v, rest) => match *rest {
            JsonElements::Nil => render(*v),
            _ => render(*v) + seq![TokenModel::Comma] + render_elements(*rest),
        },
    }
}

/// The members of an object, `key : value`, separated by commas.
pub open spec fn render_members(ms: JsonMembers) -> Seq<TokenModel>
    decreases ms,
{
    match ms {
        JsonMembers::Nil => seq![],
        JsonMembers::Cons(k, v, rest) => match *rest {
            JsonMembers::Nil => seq![TokenModel::Str(k), TokenModel::Colon] + render(*v),
            _ => seq![TokenModel::Str(k), TokenModel::Colon] + render(*v) + seq![
                TokenModel::Comma,
            ] + render_members(*rest),
        },
    }
}

/// The grammar: `t` is exactly the tokens of one JSON value.
pub open spec fn is_json_value(t: Seq<TokenModel>) -> bool {
    exists|v: JsonValue| render(v) == t
}

/// A token that can open a value.
pub open spec fn opens_value(t: TokenModel) -> bool {
    t is Str || t is Num || t is True || t is False || t is Null || t is LBracket || t is LBrace
}

proof fn lemma_render_first(v: JsonValue)
    ensures
        render(v).len() >= 1,
        opens_value(render(v)[0]),
{
}

// ── What is written is accepted ─────────────────────────────────────────────

proof fn lemma_value_complete(v: JsonValue, t: Seq<TokenModel>, i: int)
    requires
        0 <= i,
        i + render(v).len() <= t.len(),
        t.subrange(i, i + render(v).len()) == render(v),
    ensures
        value_end(t, i) == Ok::<int, JsonErrorModel>(i + render(v).len()),
    decreases v,
{
    let r = render(v);
    assert(t[i] == t.subrange(i, i + r.len())[0]);
    match v {
        JsonValue::Array(es) => {
            let body = render_elements(es);
            assert(t[i + 1] == r[1]);
            if es is Nil {
                assert(r =~= seq![TokenModel::LBracket, TokenModel::RBracket]);
            } else {
                assert(t.subrange(i + 1, i + 1 + body.len() + 1) =~= body + seq![
                    TokenModel::RBracket,
                ]) by {
                    assert(t.subrange(i + 1, i + 1 + body.len() + 1) =~= t.subrange(
                        i,
                        i + r.len(),
                    ).subrange(1, r.len() as int));
                    assert(r.subrange(1, r.len() as int) =~= body + seq![TokenModel::RBracket]);
                }
                lemma_elements_first(es);
                lemma_elements_complete(es, t, i + 1);
                assert(r[1] == body[0]);
            }
        },
        JsonValue::Object(ms) => {
            let body = render_members(ms);
            assert(t[i + 1] == r[1]);
            if ms is Nil {
                assert(r =~= seq![TokenModel::LBrace, TokenModel::RBrace]);
            } else {
                assert(t.subrange(i + 1, i + 1 + body.len() + 1) =~= body + seq![
                    TokenModel::RBrace,
                ]) by {
                    assert(t.subrange(i + 1, i + 1 + body.len() + 1) =~= t.subrange(
                        i,
                        i + r.len(),
                    ).subrange(1, r.len() as int));
                    assert(r.subrange(1, r.len() as int) =~= body + seq![TokenModel::RBrace]);
                }
                lemma_members_first(ms);
                lemma_members_complete(ms, t, i + 1);
                assert(r[1] == body[0]);
            }
        },
        _ => {},
    }
}

proof fn lemma_elements_first(es: JsonElements)
    requires
        es !is Nil,
    ensures
        render_elements(es).len() >= 1,
        opens_value(render_elements(es)[0]),
{
    if let JsonElements::Cons(v, rest) = es {
        lemma_render_first(*v);
        if !(*rest is Nil) {
            assert(render_elements(es)[0] == render(*v)[0]);
        }
    }
}

proof fn lemma_members_first(ms: JsonMembers)
    requires
        ms !is Nil,
    ensures
        render_members(ms).len() >= 1,
        render_members(ms)[0] is Str,
{
}

proof fn lemma_elements_complete(es: JsonElements, t: Seq<TokenModel>, j: int)
    requires
        es !is Nil,
        0 <= j,
        j + render_elements(es).len() + 1 <= t.len(),
        t.subrange(j, j + render_elements(es).len() + 1) == render_elements(es) + seq![
            TokenModel::RBracket,
        ],
    ensures
        elements_end(t, j) == Ok::<int, JsonErrorModel>(j + render_elements(es).len() + 1),
    decreases es,
{
    if let JsonElements::Cons(v, rest) = es {
        let rv = render(*v);
        let n: int = rv.len() as int;
        let all = render_elements(es) + seq![TokenModel::RBracket];
        let w = t.subrange(j, j + render_elements(es).len() + 1);
        lemma_render_first(*v);
        assert(t.subrange(j, j + n) =~= rv) by {
            assert forall|x: int| 0 <= x < n implies t.subrange(j, j + n)[x]
                == rv[x] by {
                assert(t[j + x] == w[x]);
                assert(all[x] == rv[x]);
            }
        }
        lemma_value_complete(*v, t, j);
        let k = j + n;
        assert(t[k] == w[n as int]);
        if *rest is Nil {
            assert(all[n as int] == TokenModel::RBracket);
        } else {
            let tail = render_elements(*rest);
            assert(all[n as int] == TokenModel::Comma);
            lemma_elements_first(*rest);
            assert(t[k + 1] == w[n + 1]);
            assert(all[n + 1] == tail[0]);
            assert(t.subrange(k + 1, k + 1 + tail.len() + 1) =~= tail + seq![
                TokenModel::RBracket,
            ]) by {
                assert forall|x: int| 0 <= x < tail.len() + 1 implies t.subrange(
                    k + 1,
                    k + 1 + tail.len() + 1,
                )[x] == (tail + seq![TokenModel::RBracket])[x] by {
                    assert(t[k + 1 + x] == w[n + 1 + x]);
                }
            }
            lemma_elements_complete(*rest, t, k + 1);
        }
    }
}

proof fn lemma_members_complete(ms: JsonMembers, t: Seq<TokenModel>, j: int)
    requires
        ms !is Nil,
        0 <= j,
        j + render_members(ms).len() + 1 <= t.len(),
        t.subrange(j, j + render_members(ms).len() + 1) == render_members(ms) + seq![
            TokenModel::RBrace,
        ],
    ensures
        members_end(t, j) == Ok::<int, JsonErrorModel>(j + render_members(ms).len() + 1),
    decreases ms,
{
    if let JsonMembers::Cons(key, v, rest) = ms {
        let rv = render(*v);
        let n: int = rv.len() as int;
        let all = render_members(ms) + seq![TokenModel::RBrace];
        let w = t.subrange(j, j + render_members(ms).len() + 1);
        lemma_render_first(*v);
        assert(t[j] == w[0]);
        assert(t[j + 1] == w[1]);
        assert(t.subrange(j + 2, j + 2 + n) =~= rv) by {
            assert forall|x: int| 0 <= x < n implies t.subrange(j + 2, j + 2 + n)[x]
                == rv[x] by {
                assert(t[j + 2 + x] == w[2 + x]);
                assert(all[2 + x] == rv[x]);
            }
        }
        lemma_value_complete(*v, t, j + 2);
        let k = j + 2 + n;
        assert(t[k] == w[2 + n]);
        if *rest is Nil {
            assert(all[2 + n] == TokenModel::RBrace);
        } else {
            let tail = render_members(*rest);
            assert(all[2 + n] == TokenModel::Comma);
            lemma_members_first(*rest);
            assert(t[k + 1] == w[3 + n]);
            assert(all[3 + n] == tail[0]);
            assert(t.subrange(k + 1, k + 1 + tail.len() + 1) =~= tail + seq![TokenModel::RBrace])
                by {
                assert forall|x: int| 0 <= x < tail.len() + 1 implies t.subrange(
                    k + 1,
                    k + 1 + tail.len() + 1,
                )[x] == (tail + seq![TokenModel::RBrace])[x] by {
                    assert(t[k + 1 + x] == w[3 + n + x]);
                }
            }
            lemma_members_complete(*rest, t, k + 1);
        }
    }
}

// ── What is accepted is written ─────────────────────────────────────────────

/// The value that the validator reads from token `i` on.
proof fn value_tree(t: Seq<TokenModel>, i: int) -> (v: JsonValue)
    requires
        value_end(t, i) is Ok,
    ensures
        render(v) == t.subrange(i, value_end(t, i)->Ok_0),
    decreases t.len() - i, 2int,
{
    lemma_value_end_advances(t, i);
    let k = value_end(t, i)->Ok_0;
    if t[i] is LBrace {
        assert(value_end(t, i) == object_end(t, i));
        if i + 1 < t.len() && t[i + 1] is RBrace {
            assert(k == i + 2);
            let v = JsonValue::Object(JsonMembers::Nil);
            assert(render(v) =~= t.subrange(i, k));
            v
        } else {
            assert(object_end(t, i) == members_end(t, i + 1));
            let ms = members_tree(t, i + 1);
            let v = JsonValue::Object(ms);
            assert(t.subrange(i, k) =~= seq![t[i]] + t.subrange(i + 1, k));
            assert(render(v) =~= t.subrange(i, k));
            v
        }
    } else if t[i] is LBracket {
        assert(value_end(t, i) == array_end(t, i));
        if i + 1 < t.len() && t[i + 1] is RBracket {
            assert(k == i + 2);
            let v = JsonValue::Array(JsonElements::Nil);
            assert(render(v) =~= t.subrange(i, k));
            v
        } else {
            assert(array_end(t, i) == elements_end(t, i + 1));
            let es = elements_tree(t, i + 1);
            let v = JsonValue::Array(es);
            assert(t.subrange(i, k) =~= seq![t[i]] + t.subrange(i + 1, k));
            assert(render(v) =~= t.subrange(i, k));
            v
        }
    } else {
        let v = match t[i] {
            TokenModel::Str(s) => JsonValue::Str(s),
            TokenModel::Num(n) => JsonValue::Num(n),
            TokenModel::True => JsonValue::True,
            TokenModel::False => JsonValue::False,
            _ => JsonValue::Null,
        };
        assert(render(v) =~= t.subrange(i, k));
        v
    }
}

/// The members that the validator reads from token `j` on, up to the `}`.
proof fn members_tree(t: Seq<TokenModel>, j: int) -> (ms: JsonMembers)
    requires
        members_end(t, j) is Ok,
    ensures
        ms !is Nil,
        j < members_end(t, j)->Ok_0 <= t.len(),
        render_members(ms) + seq![TokenModel::RBrace] == t.subrange(j, members_end(t, j)->Ok_0),
    decreases t.len() - j, 0int,
{
    let e = members_end(t, j)->Ok_0;
    lemma_value_end_advances(t, j);
    lemma_value_end_advances(t, j + 2);
    let key = t[j]->Str_0;
    let v = value_tree(t, j + 2);
    let k = value_end(t, j + 2)->Ok_0;
    assert(t.subrange(j, j + 2) =~= seq![TokenModel::Str(key), TokenModel::Colon]);
    if t[k] is RBrace {
        assert(e == k + 1);
        let ms = JsonMembers::Cons(key, Box::new(v), Box::new(JsonMembers::Nil));
        assert(t.subrange(j, e) =~= t.subrange(j, j + 2) + t.subrange(j + 2, k) + seq![t[k]]);
        assert(render_members(ms) + seq![TokenModel::RBrace] =~= t.subrange(j, e));
        ms
    } else {
        assert(t[k] is Comma);
        assert(members_end(t, j) == members_end(t, k + 1));
        let rest = members_tree(t, k + 1);
        let ms = JsonMembers::Cons(key, Box::new(v), Box::new(rest));
        assert(t.subrange(j, e) =~= t.subrange(j, j + 2) + t.subrange(j + 2, k) + seq![t[k]]
            + t.subrange(k + 1, e));
        assert(render_members(ms) + seq![TokenModel::RBrace] =~= t.subrange(j, e));
        ms
    }
}

/// The elements that the validator reads from token `j` on, up to the `]`.
proof fn elements_tree(t: Seq<TokenModel>, j: int) -> (es: JsonElements)
    requires
        elements_end(t, j) is Ok,
    ensures
        es !is Nil,
        j < elements_end(t, j)->Ok_0 <= t.len(),
        render_elements(es) + seq![TokenModel::RBracket] == t.subrange(
            j,
            elements_end(t, j)->Ok_0,
        ),
    decreases t.len() - j, 3int,
{
    let e = elements_end(t, j)->Ok_0;
    lemma_value_end_advances(t, j);
    let v = value_tree(t, j);
    let k = value_end(t, j)->Ok_0;
    if t[k] is RBracket {
        assert(e == k + 1);
        let es = JsonElements::Cons(Box::new(v), Box::new(JsonElements::Nil));
        assert(t.subrange(j, e) =~= t.subrange(j, k) + seq![t[k]]);
        assert(render_elements(es) + seq![TokenModel::RBracket] =~= t.subrange(j, e));
        es
    } else {
        assert(t[k] is Comma);
        assert(elements_end(t, j) == elements_end(t, k + 1));
        let rest = elements_tree(t, k + 1);
        let es = JsonElements::Cons(Box::new(v), Box::new(rest));
        assert(t.subrange(j, e) =~= t.subrange(j, k) + seq![t[k]] + t.subrange(k + 1, e));
        assert(render_elements(es) + seq![TokenModel::RBracket] =~= t.subrange(j, e));
        es
    }
}

// ── The validator and the grammar agree ─────────────────────────────────────

/// The parser accepts a list of tokens exactly when the list writes one JSON
/// value.
pub proof fn lemma_parse_from_grammar(t: Seq<TokenModel>)
    ensures
        parse_from(t, 0) is Ok <==> is_json_value(t),
{
    lemma_value_end_advances(t, 0);
    if parse_from(t, 0) is Ok {
        let v = value_tree(t, 0);
        assert(t.subrange(0, t.len() as int) =~= t);
        assert(render(v) == t);
    }
    if is_json_value(t) {
        let v = choose|v: JsonValue| render(v) == t;
        lemma_render_first(v);
        assert(t.subrange(0, render(v).len() as int) =~= render(v));
        lemma_value_complete(v, t, 0);
    }
}

/// A text passes the check exactly when it cuts into tokens and those tokens
/// write one JSON value.
pub proof fn lemma_json_check_grammar(s: Seq<u8>)
    ensures
        json_check(s) is Ok <==> (lex(s) is Ok && is_json_value(lex(s)->Ok_0)),
{
    if lex(s) is Ok {
        lemma_parse_from_grammar(lex(s)->Ok_0);
    }
}

} // verus!
