//! The macro evaluator: a registry of builtins, user macros and variables,
//! and the tree walk that expands macro calls in place.
use vstd::prelude::*;
use crate::tree::{Node, Tree, trees, duplicate_all, lemma_view_shallow};
use crate::simplify::{simplified, simplify, is_flat};

verus! {

broadcast use lemma_view_shallow;

/// The deepest nesting of macro expansions that evaluation follows.
pub const EXPANSION_LIMIT: usize = 200;

/// A natively implemented macro.
#[derive(Clone, Copy, Debug, PartialEq, Eq, Structural)]
pub enum Builtin {
    /// `defmacro(name, _, template)`: stores a user macro.
    DefMacro,
    /// `arg(index)`: the evaluated argument of the innermost macro call.
    Arg,
    /// `def(key, value)`: binds a variable.
    Def,
    /// `sub(key)`: the value bound to a variable.
    Sub,
}

/// Why evaluation failed.
#[derive(Debug, PartialEq, Eq)]
pub enum EvalError {
    /// Neither a builtin nor a user macro has this name.
    UndefinedMacro(String),
    /// `arg` was evaluated outside any macro expansion.
    NoActiveMacroCall,
    /// `arg` asked for this index; the innermost call has that many arguments.
    ArgIndexOutOfRange(usize, usize),
    /// A builtin was given arguments of the wrong kind or number.
    MalformedArguments,
    /// Macro expansions nested deeper than the limit.
    ExpansionLimit,
}

/// The value of an `EvalError`.
pub enum Failure {
    UndefinedMacro(Seq<char>),
    NoActiveMacroCall,
    ArgIndexOutOfRange(nat, nat),
    MalformedArguments,
    ExpansionLimit,
}

impl View for EvalError {
    type V = Failure;

    open spec fn view(&self) -> Failure {
        match self {
            EvalError::UndefinedMacro(n) => Failure::UndefinedMacro(n@),
            EvalError::NoActiveMacroCall => Failure::NoActiveMacroCall,
            EvalError::ArgIndexOutOfRange(i, n) => Failure::ArgIndexOutOfRange(*i as nat, *n as nat),
            EvalError::MalformedArguments => Failure::MalformedArguments,
            EvalError::ExpansionLimit => Failure::ExpansionLimit,
        }
    }
}

/// The bindings of a list of entries, a later entry shadowing an earlier one.
pub open spec fn latest<V>(s: Seq<(Seq<char>, V)>) -> Map<Seq<char>, V>
    decreases s.len(),
{
    if s.len() == 0 {
        Map::empty()
    } else {
        latest(s.drop_last()).insert(s.last().0, s.last().1)
    }
}

/// Where the last entry with key `k` stands in `s`, it gives the binding.
proof fn lemma_latest<V>(s: Seq<(Seq<char>, V)>, k: Seq<char>, i: int)
    requires
        0 <= i < s.len(),
        s[i].0 == k,
        forall|j: int| i < j < s.len() ==> (#[trigger] s[j]).0 != k,
    ensures
        latest(s).contains_key(k),
        latest(s)[k] == s[i].1,
    decreases s.len(),
{
    if i < s.len() - 1 {
        assert(s.drop_last()[i] == s[i]);
        assert forall|j: int| i < j < s.drop_last().len() implies (#[trigger] s.drop_last()[j]).0 != k by {
            assert(s.drop_last()[j] == s[j]);
        }
        lemma_latest(s.drop_last(), k, i);
    }
}

/// A key that no entry has is unbound.
proof fn lemma_latest_absent<V>(s: Seq<(Seq<char>, V)>, k: Seq<char>)
    requires
        forall|j: int| 0 <= j < s.len() ==> (#[trigger] s[j]).0 != k,
    ensures
        !latest(s).contains_key(k),
    decreases s.len(),
{
    if s.len() > 0 {
        assert forall|j: int| 0 <= j < s.drop_last().len() implies (#[trigger] s.drop_last()[j]).0 != k by {
            assert(s.drop_last()[j] == s[j]);
        }
        lemma_latest_absent(s.drop_last(), k);
    }
}

/// Appending an entry binds its key.
proof fn lemma_latest_push<V>(s: Seq<(Seq<char>, V)>, e: (Seq<char>, V))
    ensures
        latest(s.push(e)) == latest(s).insert(e.0, e.1),
{
    assert(s.push(e).drop_last() =~= s);
}

/// The index of the last entry of `entries` whose key is `name`.
pub(crate) fn position<V>(entries: &Vec<(String, V)>, name: &String) -> (r: Option<usize>)
    ensures
        r matches Some(i) ==> i < entries@.len() && entries@[i as int].0@ == name@ && forall|j: int|
            i < j < entries@.len() ==> (#[trigger] entries@[j]).0@ != name@,
        r is None ==> forall|j: int| 0 <= j < entries@.len() ==> (#[trigger] entries@[j]).0@ != name@,
{
    let mut i: usize = entries.len();
    while i > 0
        invariant
            i <= entries@.len(),
            forall|j: int| i <= j < entries@.len() ==> (#[trigger] entries@[j]).0@ != name@,
        decreases i,
    {
        i -= 1;
        if entries[i].0 == *name {
            return Some(i);
        }
    }
    None
}

/// The node bound to `name` in `entries`, the last binding winning.
fn lookup<'a>(entries: &'a Vec<(String, Node)>, name: &String) -> (r: Option<&'a Node>)
    ensures
        r matches Some(t) ==> latest(node_entries(entries@)).contains_key(name@) && t@ == latest(
            node_entries(entries@),
        )[name@],
        r is None ==> !latest(node_entries(entries@)).contains_key(name@),
{
    let ghost s = node_entries(entries@);
    match position(entries, name) {
        Some(i) => {
            proof {
                assert forall|j: int| i < j < s.len() implies (#[trigger] s[j]).0 != name@ by {
                    assert(s[j].0 == entries@[j].0@);
                }
                lemma_latest(s, name@, i as int);
            }
            Some(&entries[i].1)
        },
        None => {
            proof {
                assert forall|j: int| 0 <= j < s.len() implies (#[trigger] s[j]).0 != name@ by {
                    assert(s[j].0 == entries@[j].0@);
                }
                lemma_latest_absent(s, name@);
            }
            None
        },
    }
}

/// The text of argument `i`, where it is a literal.
fn literal_text(args: &Vec<Node>, i: usize) -> (r: Option<&String>)
    ensures
        r is Some == literal_arg(trees(args@), i as int) is Some,
        r matches Some(s) ==> literal_arg(trees(args@), i as int) == Some(s@),
{
    if i < args.len() {
        match &args[i] {
            Node::Literal(s) => Some(s),
            _ => None,
        }
    } else {
        None
    }
}

/// A prefix of a digit string is worth no more than the whole.
proof fn lemma_digits_prefix(s: Seq<char>, k: int)
    requires
        0 <= k <= s.len(),
    ensures
        digits_value(s.take(k)) <= digits_value(s),
    decreases s.len() - k,
{
    if k < s.len() {
        lemma_digits_prefix(s, k + 1);
        assert(s.take(k + 1).drop_last() =~= s.take(k));
    } else {
        assert(s.take(k) =~= s);
    }
}

/// The index that `s` denotes (see `parse_index`).
fn index_value(s: &String) -> (r: Option<usize>)
    ensures
        r matches Some(n) ==> parse_index(s@) == Some(n as nat),
        r is None ==> parse_index(s@) is None,
{
    let text = s.as_str();
    let n = text.unicode_len();
    if n == 0 {
        return None;
    }
    let mut v: usize = 0;
    let mut i: usize = 0;
    while i < n
        invariant
            n == s@.len(),
            text@ == s@,
            i <= n,
            v as nat == digits_value(s@.take(i as int)),
            forall|j: int| 0 <= j < i ==> '0' <= #[trigger] s@[j] <= '9',
        decreases n - i,
    {
        let c = text.get_char(i);
        if c < '0' || c > '9' {
            return None;
        }
        proof {
            assert(s@.take(i + 1).drop_last() =~= s@.take(i as int));
            assert(s@.take(i + 1).last() == c);
        }
        let d = (c as u32 - '0' as u32) as usize;
        let next = match v.checked_mul(10) {
            Some(t) => t.checked_add(d),
            None => None,
        };
        match next {
            Some(t) => {
                v = t;
            },
            None => {
                proof {
                    if is_digits(s@) {
                        lemma_digits_prefix(s@, i + 1);
                    }
                }
                return None;
            },
        }
        i += 1;
    }
    assert(s@.take(n as int) =~= s@);
    Some(v)
}

/// The value of an evaluation result that carries a node.
pub open spec fn node_result(r: Result<Node, EvalError>) -> Result<Tree, Failure> {
    match r {
        Ok(n) => Ok(n@),
        Err(e) => Err(e@),
    }
}

/// `def(key, value)`: binds a variable to the unevaluated value.
fn builtin_def(context: &mut Context, args: &Vec<Node>) -> (r: Result<Node, EvalError>)
    ensures
        (final(context)@, node_result(r)) == def_outcome(old(context)@, trees(args@)),
{
    if args.len() < 2 {
        return Err(EvalError::MalformedArguments);
    }
    match literal_text(args, 0) {
        Some(k) => {
            let name = k.clone();
            context.set_var(k.clone(), args[1].duplicate());
            Ok(Node::Consumed(name))
        },
        None => Err(EvalError::MalformedArguments),
    }
}

/// `sub(key)`: the variable's value, evaluated in the current scope, or
/// `Null` where it is unbound.
fn builtin_sub(context: &mut Context, args: &Vec<Node>, depth: usize) -> (r: Result<Node, EvalError>)
    ensures
        (final(context)@, node_result(r)) == sub_outcome(old(context)@, trees(args@), depth as nat),
    decreases depth, trees(args@), 0nat,
{
    let mut value = match literal_text(args, 0) {
        Some(k) => match context.get_var(k) {
            Some(v) => {
                if depth == 0 {
                    return Err(EvalError::ExpansionLimit);
                }
                v.duplicate()
            },
            None => {
                return Ok(Node::Null);
            },
        },
        None => {
            return Err(EvalError::MalformedArguments);
        },
    };
    match context.eval_at(&mut value, depth - 1) {
        Ok(()) => Ok(value),
        Err(e) => Err(e),
    }
}

/// `defmacro(name, _, template)`: stores a user macro.
fn builtin_defmacro(context: &mut Context, args: &Vec<Node>) -> (r: Result<Node, EvalError>)
    ensures
        (final(context)@, node_result(r)) == defmacro_outcome(old(context)@, trees(args@)),
{
    if args.len() < 3 {
        return Err(EvalError::MalformedArguments);
    }
    match literal_text(args, 0) {
        Some(m) => {
            let mut label = "defmacro/".to_string();
            label.append(m.as_str());
            context.define_macro(m.clone(), args[2].duplicate());
            Ok(Node::Consumed(label))
        },
        None => Err(EvalError::MalformedArguments),
    }
}

/// `arg(index)`: argument `index` (from 1) of the innermost macro call,
/// evaluated in the context of that call's caller.
fn builtin_arg(context: &mut Context, args: &Vec<Node>, depth: usize) -> (r: Result<Node, EvalError>)
    ensures
        (final(context)@, node_result(r)) == arg_outcome(old(context)@, trees(args@), depth as nat),
    decreases depth, trees(args@), 0nat,
{
    let ghost c = context@;
    let n = context.arg_stack.len();
    if n == 0 {
        return Err(EvalError::NoActiveMacroCall);
    }
    let index = match literal_text(args, 0) {
        Some(text) => match index_value(text) {
            Some(i) => i,
            None => {
                return Err(EvalError::MalformedArguments);
            },
        },
        None => {
            return Err(EvalError::MalformedArguments);
        },
    };
    let available = context.arg_stack[n - 1].len();
    proof {
        context.lemma_frames_view();
    }
    if index < 1 || index > available {
        return Err(EvalError::ArgIndexOutOfRange(index, available));
    }
    if depth == 0 {
        return Err(EvalError::ExpansionLimit);
    }
    let frame = context.pop_frame();
    let mut value = frame[index - 1].duplicate();
    let ghost inner = context@;
    let result = context.eval_at(&mut value, depth - 1);
    proof {
        lemma_eval_keeps_scope(inner, frame@[index - 1]@, (depth - 1) as nat);
    }
    context.push_args(frame);
    proof {
        assert(c.frames.drop_last().push(c.frames.last()) =~= c.frames);
    }
    match result {
        Ok(()) => Ok(value),
        Err(e) => Err(e),
    }
}

/// `r` reports the evaluation result `res`, and where that is a tree,
/// `n` is it.
pub open spec fn outcome_matches(r: Result<(), EvalError>, res: Result<Tree, Failure>, n: Tree) -> bool {
    match res {
        Ok(t) => r is Ok && n == t,
        Err(e) => r matches Err(x) && x@ == e,
    }
}

/// The registry's value.
pub struct ContextView {
    pub builtins: Map<Seq<char>, Builtin>,
    pub macros: Map<Seq<char>, Tree>,
    pub vars: Map<Seq<char>, Tree>,
    /// The argument lists of the macro calls in progress, innermost last.
    pub frames: Seq<Seq<Tree>>,
}

/// An evaluation context: builtins, user macros, variables and the
/// argument lists of the macro calls in progress.
pub struct Context {
    builtins: Vec<(String, Builtin)>,
    macros: Vec<(String, Node)>,
    vars: Vec<(String, Node)>,
    arg_stack: Vec<Vec<Node>>,
}

/// The keyed values of a list of node entries.
pub open spec fn node_entries(s: Seq<(String, Node)>) -> Seq<(Seq<char>, Tree)> {
    s.map_values(|e: (String, Node)| (e.0@, e.1@))
}

/// The keyed values of a list of builtin entries.
pub open spec fn builtin_entries(s: Seq<(String, Builtin)>) -> Seq<(Seq<char>, Builtin)> {
    s.map_values(|e: (String, Builtin)| (e.0@, e.1))
}

impl View for Context {
    type V = ContextView;

    closed spec fn view(&self) -> ContextView {
        ContextView {
            builtins: latest(builtin_entries(self.builtins@)),
            macros: latest(node_entries(self.macros@)),
            vars: latest(node_entries(self.vars@)),
            frames: self.arg_stack@.map_values(|f: Vec<Node>| trees(f@)),
        }
    }
}

/// The builtins that `register_defaults` installs.
pub open spec fn default_builtins() -> Map<Seq<char>, Builtin> {
    map![
        "defmacro"@ => Builtin::DefMacro,
        "arg"@ => Builtin::Arg,
        "def"@ => Builtin::Def,
        "sub"@ => Builtin::Sub,
    ]
}

/// The text of argument `i`, where it is a literal.
pub open spec fn literal_arg(args: Seq<Tree>, i: int) -> Option<Seq<char>> {
    if 0 <= i < args.len() {
        match args[i] {
            Tree::Literal(s) => Some(s),
            _ => None,
        }
    } else {
        None
    }
}

/// The number that a string of decimal digits denotes.
pub open spec fn digits_value(s: Seq<char>) -> nat
    decreases s.len(),
{
    if s.len() == 0 {
        0
    } else {
        digits_value(s.drop_last()) * 10 + (s.last() as int - '0' as int) as nat
    }
}

/// `s` is one or more decimal digits.
pub open spec fn is_digits(s: Seq<char>) -> bool {
    s.len() > 0 && forall|i: int| 0 <= i < s.len() ==> '0' <= #[trigger] s[i] <= '9'
}

/// The index that `s` denotes: its digits' value, where it fits a `usize`.
pub open spec fn parse_index(s: Seq<char>) -> Option<nat> {
    if is_digits(s) && digits_value(s) <= usize::MAX {
        Some(digits_value(s))
    } else {
        None
    }
}

/// What evaluation of a tree yields: the context after it, and the tree
/// that replaces the one evaluated, or the first failure.
pub type Outcome = (ContextView, Result<Tree, Failure>);

/// `def(key, value)`: binds `key` to the unevaluated `value`.
pub open spec fn def_outcome(c: ContextView, args: Seq<Tree>) -> Outcome {
    if args.len() >= 2 && literal_arg(args, 0) is Some {
        let k = literal_arg(args, 0)->0;
        (ContextView { vars: c.vars.insert(k, args[1]), ..c }, Ok(Tree::Consumed(k)))
    } else {
        (c, Err(Failure::MalformedArguments))
    }
}

/// `sub(key)`: the value bound to `key`, evaluated in the current scope
/// (one expansion step deeper), or `Null` where `key` is unbound.
pub open spec fn sub_outcome(c: ContextView, args: Seq<Tree>, depth: nat) -> Outcome
    decreases depth, args, 0nat,
{
    match literal_arg(args, 0) {
        Some(k) => if !c.vars.contains_key(k) {
            (c, Ok(Tree::Null))
        } else if depth == 0 {
            (c, Err(Failure::ExpansionLimit))
        } else {
            eval_tree(c, c.vars[k], (depth - 1) as nat)
        },
        None => (c, Err(Failure::MalformedArguments)),
    }
}

/// `defmacro(name, _, template)`: stores the unevaluated `template`.
pub open spec fn defmacro_outcome(c: ContextView, args: Seq<Tree>) -> Outcome {
    if args.len() >= 3 && literal_arg(args, 0) is Some {
        let m = literal_arg(args, 0)->0;
        (ContextView { macros: c.macros.insert(m, args[2]), ..c }, Ok(Tree::Consumed("defmacro/"@ + m)))
    } else {
        (c, Err(Failure::MalformedArguments))
    }
}

/// `c` with its frames replaced.
pub open spec fn with_frames(c: ContextView, frames: Seq<Seq<Tree>>) -> ContextView {
    ContextView { frames, ..c }
}

/// `arg(index)`: argument `index` (from 1) of the innermost call, evaluated
/// in the context of that call's caller.
pub open spec fn arg_outcome(c: ContextView, args: Seq<Tree>, depth: nat) -> Outcome
    decreases depth, args, 0nat,
{
    if c.frames.len() == 0 {
        (c, Err(Failure::NoActiveMacroCall))
    } else if literal_arg(args, 0) is None || parse_index(literal_arg(args, 0)->0) is None {
        (c, Err(Failure::MalformedArguments))
    } else {
        let i = parse_index(literal_arg(args, 0)->0)->0;
        let frame = c.frames.last();
        if i < 1 || i > frame.len() {
            (c, Err(Failure::ArgIndexOutOfRange(i, frame.len())))
        } else if depth == 0 {
            (c, Err(Failure::ExpansionLimit))
        } else {
            let (c1, r) = eval_tree(with_frames(c, c.frames.drop_last()), frame[i - 1], (depth - 1) as nat);
            (with_frames(c1, c.frames), r)
        }
    }
}

/// An evaluation result with its tree simplified.
pub open spec fn simplify_ok(r: Result<Tree, Failure>) -> Result<Tree, Failure> {
    match r {
        Ok(t) => Ok(simplified(t)),
        Err(e) => Err(e),
    }
}

/// A macro call: a builtin, or else a user macro, whose template is
/// evaluated with `args` as the innermost frame and then simplified.
pub open spec fn dispatch(c: ContextView, name: Seq<char>, args: Seq<Tree>, depth: nat) -> Outcome
    decreases depth, args, 1nat,
{
    if c.builtins.contains_key(name) {
        match c.builtins[name] {
            Builtin::Def => def_outcome(c, args),
            Builtin::Sub => sub_outcome(c, args, depth),
            Builtin::DefMacro => defmacro_outcome(c, args),
            Builtin::Arg => arg_outcome(c, args, depth),
        }
    } else if c.macros.contains_key(name) {
        if depth == 0 {
            (c, Err(Failure::ExpansionLimit))
        } else {
            let (c1, r) = eval_tree(with_frames(c, c.frames.push(args)), c.macros[name], (depth - 1) as nat);
            (with_frames(c1, c.frames), simplify_ok(r))
        }
    } else {
        (c, Err(Failure::UndefinedMacro(name)))
    }
}

/// Evaluation of `t` in `c`, following at most `depth` nested expansions.
pub open spec fn eval_tree(c: ContextView, t: Tree, depth: nat) -> Outcome
    decreases depth, t, 0nat,
{
    match t {
        Tree::Root(ch) => {
            let (c1, r) = eval_seq(c, ch, depth);
            (c1, match r {
                Ok(x) => Ok(Tree::Root(x)),
                Err(e) => Err(e),
            })
        },
        Tree::Element(n, ch) => {
            let (c1, r) = eval_seq(c, ch, depth);
            (c1, match r {
                Ok(x) => Ok(Tree::Element(n, x)),
                Err(e) => Err(e),
            })
        },
        Tree::Wrapper(ch) => {
            let (c1, r) = eval_seq(c, ch, depth);
            (c1, match r {
                Ok(x) => Ok(Tree::Wrapper(x)),
                Err(e) => Err(e),
            })
        },
        Tree::MacroCall(n, a) => dispatch(c, n, a, depth),
        _ => (c, Ok(t)),
    }
}

/// What takes the place of the child `t` once it evaluated to `x`: the
/// children of `x` where a macro call expanded to a wrapper, else `x`.
pub open spec fn placed(t: Tree, x: Tree) -> Seq<Tree> {
    if t is MacroCall && x is Wrapper {
        x->Wrapper_0
    } else {
        seq![x]
    }
}

/// Evaluation of a child sequence in order, stopping at the first failure;
/// a macro call that expands to a wrapper is replaced by the wrapper's
/// children.
pub open spec fn eval_seq(c: ContextView, s: Seq<Tree>, depth: nat) -> (ContextView, Result<Seq<Tree>, Failure>)
    decreases depth, s, 0nat,
{
    if s.len() == 0 {
        (c, Ok(Seq::empty()))
    } else {
        let (c1, r) = eval_seq(c, s.drop_last(), depth);
        match r {
            Err(e) => (c1, Err(e)),
            Ok(p) => {
                let (c2, r2) = eval_tree(c1, s.last(), depth);
                (c2, match r2 {
                    Ok(x) => Ok(p + placed(s.last(), x)),
                    Err(e) => Err(e),
                })
            },
        }
    }
}

/// The frames and the builtins of `c` are those of `d`.
pub open spec fn same_scope(c: ContextView, d: ContextView) -> bool {
    c.frames == d.frames && c.builtins == d.builtins
}

/// Evaluating a tree leaves the frames and the builtins as it found them.
pub proof fn lemma_eval_keeps_scope(c: ContextView, t: Tree, depth: nat)
    ensures
        same_scope(eval_tree(c, t, depth).0, c),
    decreases depth, t, 0nat,
{
    match t {
        Tree::Root(ch) => lemma_seq_keeps_scope(c, ch, depth),
        Tree::Element(_, ch) => lemma_seq_keeps_scope(c, ch, depth),
        Tree::Wrapper(ch) => lemma_seq_keeps_scope(c, ch, depth),
        Tree::MacroCall(n, a) => lemma_dispatch_keeps_scope(c, n, a, depth),
        _ => {},
    }
}

proof fn lemma_seq_keeps_scope(c: ContextView, s: Seq<Tree>, depth: nat)
    ensures
        same_scope(eval_seq(c, s, depth).0, c),
    decreases depth, s, 0nat,
{
    if s.len() > 0 {
        lemma_seq_keeps_scope(c, s.drop_last(), depth);
        let c1 = eval_seq(c, s.drop_last(), depth).0;
        lemma_eval_keeps_scope(c1, s.last(), depth);
    }
}

proof fn lemma_dispatch_keeps_scope(c: ContextView, name: Seq<char>, args: Seq<Tree>, depth: nat)
    ensures
        same_scope(dispatch(c, name, args, depth).0, c),
    decreases depth, args, 1nat,
{
    if c.builtins.contains_key(name) {
        if c.builtins[name] == Builtin::Arg {
            lemma_arg_keeps_scope(c, args, depth);
        } else if c.builtins[name] == Builtin::Sub {
            if literal_arg(args, 0) is Some && c.vars.contains_key(literal_arg(args, 0)->0) && depth > 0 {
                lemma_eval_keeps_scope(c, c.vars[literal_arg(args, 0)->0], (depth - 1) as nat);
            }
        }
    } else if c.macros.contains_key(name) && depth > 0 {
        let inner = with_frames(c, c.frames.push(args));
        lemma_eval_keeps_scope(inner, c.macros[name], (depth - 1) as nat);
    }
}

proof fn lemma_arg_keeps_scope(c: ContextView, args: Seq<Tree>, depth: nat)
    ensures
        same_scope(arg_outcome(c, args, depth).0, c),
    decreases depth, args, 0nat,
{
    if c.frames.len() > 0 && literal_arg(args, 0) is Some && parse_index(literal_arg(args, 0)->0) is Some
        && depth > 0 {
        let i = parse_index(literal_arg(args, 0)->0)->0;
        let frame = c.frames.last();
        if 1 <= i <= frame.len() {
            lemma_eval_keeps_scope(with_frames(c, c.frames.drop_last()), frame[i - 1], (depth - 1) as nat);
        }
    }
}

/// Once a prefix of a sequence fails, the whole sequence fails the same way.
proof fn lemma_seq_failure_stops(c: ContextView, s: Seq<Tree>, k: int, depth: nat)
    requires
        0 <= k <= s.len(),
        eval_seq(c, s.take(k), depth).1 is Err,
    ensures
        eval_seq(c, s, depth) == eval_seq(c, s.take(k), depth),
    decreases s.len(),
{
    if k == s.len() {
        assert(s.take(k) =~= s);
    } else {
        assert(s.drop_last().take(k) =~= s.take(k));
        lemma_seq_failure_stops(c, s.drop_last(), k, depth);
    }
}

impl Context {
    /// A context with no builtins, macros, variables or calls in progress.
    pub fn new() -> (r: Context)
        ensures
            r@.builtins.is_empty(),
            r@.macros.is_empty(),
            r@.vars.is_empty(),
            r@.frames.len() == 0,
    {
        Context { builtins: Vec::new(), macros: Vec::new(), vars: Vec::new(), arg_stack: Vec::new() }
    }

    /// The builtin bound to `name`.
    fn find_builtin(&self, name: &String) -> (r: Option<Builtin>)
        ensures
            r == (if self@.builtins.contains_key(name@) {
                Some(self@.builtins[name@])
            } else {
                None
            }),
    {
        let ghost s = builtin_entries(self.builtins@);
        match position(&self.builtins, name) {
            Some(i) => {
                proof {
                    assert forall|j: int| i < j < s.len() implies (#[trigger] s[j]).0 != name@ by {
                        assert(s[j].0 == self.builtins@[j].0@);
                    }
                    lemma_latest(s, name@, i as int);
                }
                Some(self.builtins[i].1)
            },
            None => {
                proof {
                    assert forall|j: int| 0 <= j < s.len() implies (#[trigger] s[j]).0 != name@ by {
                        assert(s[j].0 == self.builtins@[j].0@);
                    }
                    lemma_latest_absent(s, name@);
                }
                None
            },
        }
    }

    /// The template of the user macro `name`.
    fn find_macro(&self, name: &String) -> (r: Option<&Node>)
        ensures
            r matches Some(t) ==> self@.macros.contains_key(name@) && t@ == self@.macros[name@],
            r is None ==> !self@.macros.contains_key(name@),
    {
        lookup(&self.macros, name)
    }

    /// The value bound to the variable `name`.
    pub fn get_var(&self, name: &String) -> (r: Option<&Node>)
        ensures
            r matches Some(t) ==> self@.vars.contains_key(name@) && t@ == self@.vars[name@],
            r is None ==> !self@.vars.contains_key(name@),
    {
        lookup(&self.vars, name)
    }

    /// Binds the variable `name` to `value`, replacing an earlier binding.
    pub fn set_var(&mut self, name: String, value: Node)
        ensures
            final(self)@ == (ContextView { vars: old(self)@.vars.insert(name@, value@), ..old(self)@ }),
    {
        let ghost before = self.vars@;
        let ghost e = (name@, value@);
        self.vars.push((name, value));
        proof {
            assert(node_entries(self.vars@) =~= node_entries(before).push(e));
            lemma_latest_push(node_entries(before), e);
        }
    }

    /// Stores `template` as the user macro `name`, replacing an earlier one.
    pub fn define_macro(&mut self, name: String, template: Node)
        ensures
            final(self)@ == (ContextView {
                macros: old(self)@.macros.insert(name@, template@),
                ..old(self)@
            }),
    {
        let ghost before = self.macros@;
        let ghost e = (name@, template@);
        self.macros.push((name, template));
        proof {
            assert(node_entries(self.macros@) =~= node_entries(before).push(e));
            lemma_latest_push(node_entries(before), e);
        }
    }

    proof fn lemma_frames_view(&self)
        ensures
            self@.frames.len() == self.arg_stack@.len(),
            forall|i: int| 0 <= i < self.arg_stack@.len() ==> #[trigger] self@.frames[i] == trees(self.arg_stack@[i]@),
    {
    }

    /// Pushes the argument list of a macro call that begins.
    pub fn push_args(&mut self, args: Vec<Node>)
        ensures
            final(self)@ == with_frames(old(self)@, old(self)@.frames.push(trees(args@))),
    {
        self.arg_stack.push(args);
        proof {
            assert(self@.frames =~= old(self)@.frames.push(trees(args@)));
        }
    }

    /// Pops the argument list of the innermost macro call.
    fn pop_frame(&mut self) -> (r: Vec<Node>)
        requires
            old(self)@.frames.len() > 0,
        ensures
            trees(r@) == old(self)@.frames.last(),
            final(self)@ == with_frames(old(self)@, old(self)@.frames.drop_last()),
    {
        proof {
            old(self).lemma_frames_view();
        }
        match self.arg_stack.pop() {
            Some(f) => {
                proof {
                    assert(self@.frames =~= old(self)@.frames.drop_last());
                }
                f
            },
            None => Vec::new(),
        }
    }

    /// Pops the argument list of the innermost macro call, if there is one.
    pub fn pop_args(&mut self) -> (r: Option<Vec<Node>>)
        ensures
            old(self)@.frames.len() == 0 ==> r is None && final(self)@ == old(self)@,
            old(self)@.frames.len() > 0 ==> (r matches Some(f) && trees(f@) == old(self)@.frames.last()
                && final(self)@ == with_frames(old(self)@, old(self)@.frames.drop_last())),
    {
        proof {
            self.lemma_frames_view();
        }
        if self.arg_stack.len() == 0 {
            None
        } else {
            Some(self.pop_frame())
        }
    }

    /// The argument list of the innermost macro call.
    pub fn top_args(&self) -> (r: Result<&Vec<Node>, EvalError>)
        ensures
            self@.frames.len() == 0 ==> (r matches Err(e) && e@ == Failure::NoActiveMacroCall),
            self@.frames.len() > 0 ==> (r matches Ok(f) && trees(f@) == self@.frames.last()),
    {
        proof {
            self.lemma_frames_view();
        }
        let n = self.arg_stack.len();
        if n == 0 {
            Err(EvalError::NoActiveMacroCall)
        } else {
            Ok(&self.arg_stack[n - 1])
        }
    }

    /// Expands the macro call `name(args)` and returns what replaces it.
    fn call(&mut self, name: &String, args: &Vec<Node>, depth: usize) -> (r: Result<Node, EvalError>)
        ensures
            (final(self)@, node_result(r)) == dispatch(old(self)@, name@, trees(args@), depth as nat),
        decreases depth, trees(args@), 1nat,
    {
        if let Some(builtin) = self.find_builtin(name) {
            match builtin {
                Builtin::Def => builtin_def(self, args),
                Builtin::Sub => builtin_sub(self, args, depth),
                Builtin::DefMacro => builtin_defmacro(self, args),
                Builtin::Arg => builtin_arg(self, args, depth),
            }
        } else {
            let mut working_copy = match self.find_macro(name) {
                Some(template) => template.duplicate(),
                None => {
                    return Err(EvalError::UndefinedMacro(name.clone()));
                },
            };
            if depth == 0 {
                return Err(EvalError::ExpansionLimit);
            }
            let ghost c = self@;
            self.push_args(duplicate_all(args));
            let ghost inner = self@;
            let result = self.eval_at(&mut working_copy, depth - 1);
            proof {
                lemma_eval_keeps_scope(inner, c.macros[name@], (depth - 1) as nat);
            }
            let _ = self.pop_frame();
            proof {
                assert(c.frames.push(trees(args@)).drop_last() =~= c.frames);
            }
            match result {
                Ok(()) => {
                    simplify(&mut working_copy);
                    Ok(working_copy)
                },
                Err(e) => Err(e),
            }
        }
    }

    /// Evaluates `node` in place: containers' children in document order,
    /// each macro call replaced by its expansion, and an expansion that is a
    /// wrapper by the wrapper's children. The first failure aborts and leaves
    /// `node` as it was.
    pub fn eval(&mut self, node: &mut Node) -> (r: Result<(), EvalError>)
        ensures
            final(self)@ == eval_tree(old(self)@, old(node)@, EXPANSION_LIMIT as nat).0,
            outcome_matches(r, eval_tree(old(self)@, old(node)@, EXPANSION_LIMIT as nat).1, final(node)@),
            r is Err ==> final(node)@ == old(node)@,
    {
        let mut work = node.duplicate();
        let r = self.eval_at(&mut work, EXPANSION_LIMIT);
        if r.is_ok() {
            *node = work;
        }
        r
    }

    /// Evaluates `node`, then splices away the wrappers that expansions left.
    pub fn expand(&mut self, node: &mut Node) -> (r: Result<(), EvalError>)
        ensures
            final(self)@ == eval_tree(old(self)@, old(node)@, EXPANSION_LIMIT as nat).0,
            outcome_matches(
                r,
                simplify_ok(eval_tree(old(self)@, old(node)@, EXPANSION_LIMIT as nat).1),
                final(node)@,
            ),
            r is Ok ==> is_flat(final(node)@),
            r is Err ==> final(node)@ == old(node)@,
    {
        let r = self.eval(node);
        if r.is_ok() {
            simplify(node);
        }
        r
    }

    /// Evaluates `node` in place, following at most `depth` nested expansions.
    fn eval_at(&mut self, node: &mut Node, depth: usize) -> (r: Result<(), EvalError>)
        ensures
            final(self)@ == eval_tree(old(self)@, old(node)@, depth as nat).0,
            outcome_matches(r, eval_tree(old(self)@, old(node)@, depth as nat).1, final(node)@),
        decreases depth, old(node)@, 0nat,
    {
        let ghost t = node@;
        match node {
            Node::Root(c) => {
                proof {
                    assert(decreases_to!(t => t->Root_0));
                }
                self.eval_children(c, depth)
            },
            Node::Element(_, c) => {
                proof {
                    assert(decreases_to!(t => t->Element_1));
                }
                self.eval_children(c, depth)
            },
            Node::Wrapper(c) => {
                proof {
                    assert(decreases_to!(t => t->Wrapper_0));
                }
                self.eval_children(c, depth)
            },
            Node::MacroCall(n, a) => {
                proof {
                    assert(decreases_to!(t => t->MacroCall_1));
                }
                match self.call(n, a, depth) {
                    Ok(replacement) => {
                        *node = replacement;
                        Ok(())
                    },
                    Err(e) => Err(e),
                }
            },
            _ => Ok(()),
        }
    }

    /// Evaluates each node of `c` in order, stopping at the first failure;
    /// a macro call that expands to a wrapper gives way to its children.
    fn eval_children(&mut self, c: &mut Vec<Node>, depth: usize) -> (r: Result<(), EvalError>)
        ensures
            final(self)@ == eval_seq(old(self)@, trees(old(c)@), depth as nat).0,
            match eval_seq(old(self)@, trees(old(c)@), depth as nat).1 {
                Ok(s) => r is Ok && trees(final(c)@) == s,
                Err(e) => r matches Err(x) && x@ == e,
            },
        decreases depth, trees(old(c)@), 0nat,
    {
        let mut v: Vec<Node> = Vec::new();
        std::mem::swap(&mut v, c);
        let ghost s = trees(v@);
        let ghost c0 = self@;
        let mut out: Vec<Node> = Vec::new();
        let mut i: usize = 0;
        assert(s.take(0) =~= Seq::<Tree>::empty());
        assert(trees(out@) =~= Seq::<Tree>::empty());
        while i < v.len()
            invariant
                i <= v@.len(),
                v@.len() == s.len(),
                s == trees(old(c)@),
                c0 == old(self)@,
                forall|j: int| i <= j < v@.len() ==> (#[trigger] v@[j])@ == s[j],
                eval_seq(c0, s.take(i as int), depth as nat) == (self@, Ok::<Seq<Tree>, Failure>(trees(out@))),
            decreases v@.len() - i,
        {
            let mut n = Node::Null;
            std::mem::swap(&mut n, &mut v[i]);
            proof {
                assert(n@ == s[i as int]);
                assert(s.take(i + 1).drop_last() =~= s.take(i as int));
                assert(s.take(i + 1).last() == s[i as int]);
                assert(decreases_to!(s => s[i as int]));
            }
            let is_call = match &n {
                Node::MacroCall(_, _) => true,
                _ => false,
            };
            match self.eval_at(&mut n, depth) {
                Ok(()) => {},
                Err(e) => {
                    proof {
                        lemma_seq_failure_stops(c0, s, i + 1, depth as nat);
                    }
                    return Err(e);
                },
            }
            let ghost prev = out@;
            let ghost x = n@;
            if is_call {
                match n {
                    Node::Wrapper(g) => {
                        let mut g = g;
                        let ghost added = g@;
                        out.append(&mut g);
                        assert(trees(out@) =~= trees(prev) + trees(added));
                    },
                    other => {
                        out.push(other);
                        assert(trees(out@) =~= trees(prev) + seq![x]);
                    },
                }
            } else {
                out.push(n);
                assert(trees(out@) =~= trees(prev) + seq![x]);
            }
            i += 1;
        }
        assert(s.take(v@.len() as int) =~= s);
        *c = out;
        Ok(())
    }

    /// Binds `name` to `builtin`, shadowing an earlier binding of it.
    fn register(&mut self, name: &str, builtin: Builtin)
        ensures
            final(self)@ == (ContextView { builtins: old(self)@.builtins.insert(name@, builtin), ..old(self)@ }),
    {
        let ghost before = self.builtins@;
        self.builtins.push((name.to_string(), builtin));
        proof {
            assert(builtin_entries(self.builtins@) =~= builtin_entries(before).push((name@, builtin)));
            lemma_latest_push(builtin_entries(before), (name@, builtin));
        }
    }

    /// Installs the builtins `defmacro`, `arg`, `def` and `sub`.
    pub fn register_defaults(&mut self)
        ensures
            final(self)@ == (ContextView {
                builtins: old(self)@.builtins.union_prefer_right(default_builtins()),
                ..old(self)@
            }),
    {
        self.register("defmacro", Builtin::DefMacro);
        self.register("arg", Builtin::Arg);
        self.register("def", Builtin::Def);
        self.register("sub", Builtin::Sub);
        proof {
            assert(self@.builtins =~= old(self)@.builtins.union_prefer_right(default_builtins()));
        }
    }
}

} // verus!
