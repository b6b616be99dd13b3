//! What holds of evaluation across calls, stated over its model.
use vstd::prelude::*;
use crate::tree::Tree;
use crate::eval::{
    ContextView, Failure, default_builtins, eval_tree, eval_seq, dispatch, with_frames, parse_index,
    simplify_ok, arg_outcome, sub_outcome,
};

verus! {

/// `t` holds no macro call.
pub open spec fn macro_free(t: Tree) -> bool
    decreases t,
{
    match t {
        Tree::Root(c) => macro_free_seq(c),
        Tree::Element(_, c) => macro_free_seq(c),
        Tree::Wrapper(c) => macro_free_seq(c),
        Tree::MacroCall(_, _) => false,
        _ => true,
    }
}

/// No tree of `s` holds a macro call.
pub open spec fn macro_free_seq(s: Seq<Tree>) -> bool
    decreases s,
{
    forall|i: int| 0 <= i < s.len() ==> macro_free(#[trigger] s[i])
}

/// The call `def(k, v)`.
pub open spec fn def_call(k: Seq<char>, v: Tree) -> Tree {
    Tree::MacroCall("def"@, seq![Tree::Literal(k), v])
}

/// The call `sub(k)`.
pub open spec fn sub_call(k: Seq<char>) -> Tree {
    Tree::MacroCall("sub"@, seq![Tree::Literal(k)])
}

/// The call `defmacro(m, x, t)`.
pub open spec fn defmacro_call(m: Seq<char>, x: Tree, t: Tree) -> Tree {
    Tree::MacroCall("defmacro"@, seq![Tree::Literal(m), x, t])
}

/// The call `arg(s)`.
pub open spec fn arg_call(s: Seq<char>) -> Tree {
    Tree::MacroCall("arg"@, seq![Tree::Literal(s)])
}

/// Evaluating a tree that holds no macro call changes neither the tree
/// nor the context.
pub proof fn eval_macro_free_is_identity(c: ContextView, t: Tree, depth: nat)
    requires
        macro_free(t),
    ensures
        eval_tree(c, t, depth) == (c, Ok::<Tree, Failure>(t)),
    decreases t,
{
    match t {
        Tree::Root(ch) => lemma_eval_seq_macro_free(c, ch, depth),
        Tree::Element(_, ch) => lemma_eval_seq_macro_free(c, ch, depth),
        Tree::Wrapper(ch) => lemma_eval_seq_macro_free(c, ch, depth),
        _ => {},
    }
}

proof fn lemma_eval_seq_macro_free(c: ContextView, s: Seq<Tree>, depth: nat)
    requires
        macro_free_seq(s),
    ensures
        eval_seq(c, s, depth) == (c, Ok::<Seq<Tree>, Failure>(s)),
    decreases s,
{
    if s.len() > 0 {
        let p = s.drop_last();
        assert(macro_free_seq(p)) by {
            assert forall|i: int| 0 <= i < p.len() implies macro_free(#[trigger] p[i]) by {
                assert(p[i] == s[i]);
            }
        }
        lemma_eval_seq_macro_free(c, p, depth);
        assert(macro_free(s[s.len() - 1]));
        eval_macro_free_is_identity(c, s.last(), depth);
        assert(p + seq![s.last()] =~= s);
    } else {
        assert(s =~= Seq::<Tree>::empty());
    }
}

proof fn lemma_default_names()
    ensures
        default_builtins().contains_key("def"@),
        default_builtins()["def"@] == crate::eval::Builtin::Def,
        default_builtins().contains_key("sub"@),
        default_builtins()["sub"@] == crate::eval::Builtin::Sub,
        default_builtins().contains_key("defmacro"@),
        default_builtins()["defmacro"@] == crate::eval::Builtin::DefMacro,
        default_builtins().contains_key("arg"@),
        default_builtins()["arg"@] == crate::eval::Builtin::Arg,
{
    reveal_strlit("def");
    reveal_strlit("sub");
    reveal_strlit("defmacro");
    reveal_strlit("arg");
    assert("def"@[0] != "sub"@[0]);
    assert("def"@.len() != "defmacro"@.len());
    assert("def"@[0] != "arg"@[0]);
    assert("sub"@[0] != "defmacro"@[0]);
    assert("sub"@[0] != "arg"@[0]);
    assert("defmacro"@[0] != "arg"@[0]);
}

/// `def(k, v)` with `v` free of macro calls, then `sub(k)` in the same
/// scope or in any macro call below it: the definition leaves `Consumed(k)`,
/// and the substitution yields `v` exactly as it was given.
pub proof fn def_then_sub(c: ContextView, k: Seq<char>, v: Tree, frames: Seq<Seq<Tree>>, depth: nat)
    requires
        c.builtins == default_builtins(),
        macro_free(v),
        depth > 0,
    ensures
        ({
            let (c1, r1) = eval_tree(c, def_call(k, v), depth);
            let (c2, r2) = eval_tree(with_frames(c1, frames), sub_call(k), depth);
            &&& r1 == Ok::<Tree, Failure>(Tree::Consumed(k))
            &&& r2 == Ok::<Tree, Failure>(v)
            &&& c2 == with_frames(c1, frames)
        }),
{
    lemma_default_names();
    let c1 = eval_tree(c, def_call(k, v), depth).0;
    let inner = with_frames(c1, frames);
    eval_macro_free_is_identity(inner, v, (depth - 1) as nat);
    let args = seq![Tree::Literal(k)];
    assert(eval_tree(inner, sub_call(k), depth) == dispatch(inner, "sub"@, args, depth));
    assert(dispatch(inner, "sub"@, args, depth) == sub_outcome(inner, args, depth));
}

/// Inside a call whose arguments are `a`, `arg(s)`, where `s` denotes an
/// index `i` from 1 to the number of arguments, yields `a[i - 1]` evaluated
/// in the caller's scope, and leaves the call's frame in place.
pub proof fn arg_resolves(c: ContextView, a: Seq<Tree>, s: Seq<char>, depth: nat)
    requires
        c.builtins == default_builtins(),
        parse_index(s) is Some,
        1 <= parse_index(s)->0 <= a.len(),
        depth > 0,
    ensures
        ({
            let i = parse_index(s)->0;
            let (c1, r1) = eval_tree(with_frames(c, c.frames.push(a)), arg_call(s), depth);
            let (c2, r2) = eval_tree(c, a[i - 1], (depth - 1) as nat);
            r1 == r2 && c1 == with_frames(c2, c.frames.push(a))
        }),
{
    lemma_default_names();
    let inner = with_frames(c, c.frames.push(a));
    assert(inner.frames.drop_last() =~= c.frames);
    assert(with_frames(inner, c.frames) == c);
    let args = seq![Tree::Literal(s)];
    assert(eval_tree(inner, arg_call(s), depth) == dispatch(inner, "arg"@, args, depth));
    assert(dispatch(inner, "arg"@, args, depth) == arg_outcome(inner, args, depth));
}

/// `defmacro(m, x, t)`, then the calls `m(a)` and `m(b)`: each call
/// evaluates a fresh copy of the stored template with its own arguments as
/// the innermost frame, simplifies the result, and hands the frames back as
/// it found them, so that the second call sees nothing of the first one's
/// arguments.
pub proof fn defmacro_then_calls(
    c: ContextView,
    m: Seq<char>,
    x: Tree,
    t: Tree,
    a: Seq<Tree>,
    b: Seq<Tree>,
    depth: nat,
)
    requires
        c.builtins == default_builtins(),
        !default_builtins().contains_key(m),
        depth > 0,
    ensures
        ({
            let (c1, r1) = eval_tree(c, defmacro_call(m, x, t), depth);
            let (e1, q1) = eval_tree(with_frames(c1, c.frames.push(a)), t, (depth - 1) as nat);
            let (c2, r2) = eval_tree(c1, Tree::MacroCall(m, a), depth);
            let (e2, q2) = eval_tree(with_frames(c2, c.frames.push(b)), t, (depth - 1) as nat);
            let (c3, r3) = eval_tree(c2, Tree::MacroCall(m, b), depth);
            &&& r1 == Ok::<Tree, Failure>(Tree::Consumed("defmacro/"@ + m))
            &&& c1.macros.contains_key(m) && c1.macros[m] == t
            &&& r2 == simplify_ok(q1) && c2 == with_frames(e1, c.frames)
            &&& c2.macros.contains_key(m) && c2.macros[m] == t ==> r3 == simplify_ok(q2) && c3
                == with_frames(e2, c.frames)
        }),
{
    lemma_default_names();
    let (c1, r1) = eval_tree(c, defmacro_call(m, x, t), depth);
    let inner = with_frames(c1, c.frames.push(a));
    crate::eval::lemma_eval_keeps_scope(inner, t, (depth - 1) as nat);
}

/// Defining a variable again replaces it for later `sub`s, while the value
/// that an earlier `sub` produced stays as it was (values free of macro
/// calls).
pub proof fn redefine_var(c: ContextView, k: Seq<char>, v1: Tree, v2: Tree, depth: nat)
    requires
        c.builtins == default_builtins(),
        macro_free(v1),
        macro_free(v2),
        depth > 0,
    ensures
        ({
            let (c1, _r1) = eval_tree(c, def_call(k, v1), depth);
            let (c2, s1) = eval_tree(c1, sub_call(k), depth);
            let (c3, _r3) = eval_tree(c2, def_call(k, v2), depth);
            let (_c4, s2) = eval_tree(c3, sub_call(k), depth);
            s1 == Ok::<Tree, Failure>(v1) && s2 == Ok::<Tree, Failure>(v2)
        }),
{
    lemma_default_names();
    let args = seq![Tree::Literal(k)];
    let c1 = eval_tree(c, def_call(k, v1), depth).0;
    eval_macro_free_is_identity(c1, v1, (depth - 1) as nat);
    assert(eval_tree(c1, sub_call(k), depth) == dispatch(c1, "sub"@, args, depth));
    assert(dispatch(c1, "sub"@, args, depth) == sub_outcome(c1, args, depth));
    let c2 = eval_tree(c1, sub_call(k), depth).0;
    let c3 = eval_tree(c2, def_call(k, v2), depth).0;
    eval_macro_free_is_identity(c3, v2, (depth - 1) as nat);
    assert(eval_tree(c3, sub_call(k), depth) == dispatch(c3, "sub"@, args, depth));
    assert(dispatch(c3, "sub"@, args, depth) == sub_outcome(c3, args, depth));
}

/// Defining a macro again replaces its template for later calls.
pub proof fn redefine_macro(c: ContextView, m: Seq<char>, x: Tree, t1: Tree, t2: Tree, a: Seq<Tree>, depth: nat)
    requires
        c.builtins == default_builtins(),
        !default_builtins().contains_key(m),
        depth > 0,
    ensures
        ({
            let (c1, _r1) = eval_tree(c, defmacro_call(m, x, t1), depth);
            let (c2, _r2) = eval_tree(c1, defmacro_call(m, x, t2), depth);
            let (e, q) = eval_tree(with_frames(c2, c2.frames.push(a)), t2, (depth - 1) as nat);
            eval_tree(c2, Tree::MacroCall(m, a), depth) == (with_frames(e, c2.frames), simplify_ok(q))
        }),
{
    lemma_default_names();
}

/// `arg` outside any macro call fails with `NoActiveMacroCall`, whatever its
/// arguments; inside one, an index of 0 or past the innermost call's
/// arguments fails with `ArgIndexOutOfRange`.
pub proof fn arg_failures(c: ContextView, args: Seq<Tree>, s: Seq<char>, depth: nat)
    requires
        c.builtins == default_builtins(),
    ensures
        c.frames.len() == 0 ==> eval_tree(c, Tree::MacroCall("arg"@, args), depth) == (
            c,
            Err::<Tree, Failure>(Failure::NoActiveMacroCall),
        ),
        c.frames.len() > 0 && parse_index(s) is Some && (parse_index(s)->0 == 0 || parse_index(s)->0
            > c.frames.last().len()) ==> eval_tree(c, arg_call(s), depth) == (
            c,
            Err::<Tree, Failure>(Failure::ArgIndexOutOfRange(parse_index(s)->0, c.frames.last().len())),
        ),
{
    lemma_default_names();
    assert(eval_tree(c, Tree::MacroCall("arg"@, args), depth) == dispatch(c, "arg"@, args, depth));
    assert(dispatch(c, "arg"@, args, depth) == arg_outcome(c, args, depth));
    let one = seq![Tree::Literal(s)];
    assert(eval_tree(c, arg_call(s), depth) == dispatch(c, "arg"@, one, depth));
    assert(dispatch(c, "arg"@, one, depth) == arg_outcome(c, one, depth));
}

/// A macro call inside an element that expands to a wrapper: after
/// evaluation the element holds the wrapper's children in its place, with no
/// wrapper left between them.
pub proof fn expansion_spliced_into_parent(
    c: ContextView,
    n: Seq<char>,
    m: Seq<char>,
    a: Seq<Tree>,
    depth: nat,
)
    requires
        dispatch(c, m, a, depth).1 matches Ok(Tree::Wrapper(_)),
    ensures
        ({
            let g = dispatch(c, m, a, depth).1->Ok_0->Wrapper_0;
            eval_tree(c, Tree::Element(n, seq![Tree::MacroCall(m, a)]), depth) == (
                dispatch(c, m, a, depth).0,
                Ok::<Tree, Failure>(Tree::Element(n, g)),
            )
        }),
{
    let s = seq![Tree::MacroCall(m, a)];
    assert(s.drop_last() =~= Seq::<Tree>::empty());
    let g = dispatch(c, m, a, depth).1->Ok_0->Wrapper_0;
    assert(eval_seq(c, s.drop_last(), depth) == (c, Ok::<Seq<Tree>, Failure>(Seq::empty())));
    assert(s.last() == Tree::MacroCall(m, a));
    assert(eval_tree(c, s.last(), depth) == dispatch(c, m, a, depth));
    assert(Seq::<Tree>::empty() + g =~= g);
    assert(eval_seq(c, s, depth) == (dispatch(c, m, a, depth).0, Ok::<Seq<Tree>, Failure>(g)));
}

/// A call to a name that is neither a builtin nor a user macro fails with
/// `UndefinedMacro`, whatever its arguments.
pub proof fn undefined_macro_fails(c: ContextView, n: Seq<char>, args: Seq<Tree>, depth: nat)
    requires
        !c.builtins.contains_key(n),
        !c.macros.contains_key(n),
    ensures
        eval_tree(c, Tree::MacroCall(n, args), depth) == (c, Err::<Tree, Failure>(Failure::UndefinedMacro(n))),
{
}

} // verus!
