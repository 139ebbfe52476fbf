//! The context: a store of named value trees, against which templates
//! are rendered.

use vstd::prelude::*;

use crate::parse;
use crate::parse::Token;
use crate::parse::TokenModel;
use crate::parse::Tokenize;
use crate::value::entries_model;
use crate::value::object_model;
use crate::value::object_wf;
use crate::value::prop_name_ok;
use crate::value::value_model;
use crate::value::value_wf;
use crate::value::Object;
use crate::value::Value;
use crate::value::ValueModel;
use crate::var_model;
use crate::var_wf;
use crate::Variable;
use crate::VariableInner;

verus! {

/// Context for expanding templates: a mapping from top-level names to
/// value trees.
#[derive(Debug, PartialEq, Eq)]
pub struct Context {
    /// The top-level bindings.
    pub vars: Object,
}

/// Errors that may happen during rendering.
#[derive(Debug, PartialEq, Eq)]
#[non_exhaustive]
pub enum Error {
    /// Forwarded from parsing.
    Parse(parse::Error),
    /// Tried to expand a template variable that no value is defined for.
    MissingVariable(Variable),
    /// Tried to expand a template variable that resolves to an object.
    TriedToExpandObject(Variable),
}

/// The mapping a context stands for.
pub open spec fn context_model(c: Context) -> Map<Seq<char>, ValueModel> {
    object_model(c.vars)
}

/// Well-formedness of a context.
pub open spec fn context_wf(c: Context) -> bool {
    object_wf(c.vars)
}

/// A variable whose segments may be used as property names.
pub open spec fn define_ok(v: Variable) -> bool {
    &&& var_wf(v)
    &&& forall|j: int| 0 <= j < var_model(v).len() ==> prop_name_ok(#[trigger] var_model(v)[j])
}

/// Walk a value down the given segments: each step requires an object
/// holding the next segment as a property.
pub open spec fn drill(v: ValueModel, rest: Seq<Seq<char>>) -> Option<ValueModel>
    decreases rest.len(),
{
    if rest.len() == 0 {
        Some(v)
    } else {
        match v {
            ValueModel::Leaf(_) => None,
            ValueModel::Object(m) => if m.contains_key(rest[0]) {
                drill(m[rest[0]], rest.drop_first())
            } else {
                None
            },
        }
    }
}

/// Resolve a dotted path against the top-level mapping: `None` where any
/// step is missing or an intermediate step is a string leaf.
pub open spec fn lookup_path(m: Map<Seq<char>, ValueModel>, path: Seq<Seq<char>>) -> Option<
    ValueModel,
> {
    if path.len() >= 1 && m.contains_key(path[0]) {
        drill(m[path[0]], path.drop_first())
    } else {
        None
    }
}

/// The object found under a name, or a fresh empty one: an existing
/// object is kept, a string leaf is discarded, a missing entry is
/// created.
pub open spec fn force_object_at(m: Map<Seq<char>, ValueModel>, k: Seq<char>) -> Map<
    Seq<char>,
    ValueModel,
> {
    if m.contains_key(k) && m[k] is Object {
        m[k]->Object_0
    } else {
        Map::empty()
    }
}

/// Write a value at the end of a path of property names, creating or
/// forcing intermediate objects along the way.
pub open spec fn define_in(
    m: Map<Seq<char>, ValueModel>,
    segs: Seq<Seq<char>>,
    value: ValueModel,
) -> Map<Seq<char>, ValueModel>
    decreases segs.len(),
{
    if segs.len() <= 1 {
        if segs.len() == 1 {
            m.insert(segs[0], value)
        } else {
            m
        }
    } else {
        m.insert(
            segs[0],
            ValueModel::Object(define_in(force_object_at(m, segs[0]), segs.drop_first(), value)),
        )
    }
}

/// What defining a path does to the top-level mapping.
///
/// A multi-segment path writes through intermediate objects.  A
/// single-segment path replaces an existing string leaf, but merges into
/// an existing object as one more property keyed by the path's own name.
pub open spec fn define_model(
    m: Map<Seq<char>, ValueModel>,
    path: Seq<Seq<char>>,
    value: ValueModel,
) -> Map<Seq<char>, ValueModel> {
    if path.len() == 1 {
        if m.contains_key(path[0]) {
            match m[path[0]] {
                ValueModel::Leaf(_) => m.insert(path[0], value),
                ValueModel::Object(o) => m.insert(
                    path[0],
                    ValueModel::Object(o.insert(path[0], value)),
                ),
            }
        } else {
            m.insert(path[0], value)
        }
    } else {
        define_in(m, path, value)
    }
}

/// What a sequence of definitions does to the top-level mapping, applied
/// in order.
pub open spec fn defines_fold(
    m: Map<Seq<char>, ValueModel>,
    s: Seq<(Variable, Value)>,
    i: int,
) -> Map<Seq<char>, ValueModel>
    decreases i,
    when 0 <= i <= s.len()
{
    if i <= 0 {
        m
    } else {
        define_model(defines_fold(m, s, i - 1), var_model(s[i - 1].0), value_model(s[i - 1].1))
    }
}

/// A failed rendering, at the specification level.
pub enum RenderErr {
    /// The template failed to tokenize.
    RenderParse(parse::Error),
    /// A placeholder's path resolves to nothing.
    RenderMissing(Seq<Seq<char>>),
    /// A placeholder's path resolves to an object, which cannot be
    /// expanded into text.
    RenderExpandObject(Seq<Seq<char>>),
}

/// The outcome of rendering, at the specification level.
pub enum RenderResult {
    /// The fully expanded text.
    Rendered(Seq<char>),
    /// Rendering fails; nothing is produced.
    RenderFailed(RenderErr),
}

/// Prefix rendered text to an outcome; failures pass through.
pub open spec fn prepend_text(t: Seq<char>, r: RenderResult) -> RenderResult {
    match r {
        RenderResult::Rendered(o) => RenderResult::Rendered(t + o),
        RenderResult::RenderFailed(f) => RenderResult::RenderFailed(f),
    }
}

/// Render a token stream: literal text is kept, each variable is
/// resolved to a leaf, and the first failure aborts the whole render.
pub open spec fn render_toks(
    m: Map<Seq<char>, ValueModel>,
    toks: Seq<TokenModel>,
    err: Option<parse::Error>,
) -> RenderResult
    decreases toks.len(),
{
    if toks.len() == 0 {
        match err {
            Option::None => RenderResult::Rendered(Seq::empty()),
            Option::Some(e) => RenderResult::RenderFailed(RenderErr::RenderParse(e)),
        }
    } else {
        match toks[0] {
            TokenModel::TokText(t) => prepend_text(t, render_toks(m, toks.drop_first(), err)),
            TokenModel::TokVar(p) => match lookup_path(m, p) {
                Option::None => RenderResult::RenderFailed(RenderErr::RenderMissing(p)),
                Option::Some(ValueModel::Object(_)) => RenderResult::RenderFailed(
                    RenderErr::RenderExpandObject(p),
                ),
                Option::Some(ValueModel::Leaf(t)) => prepend_text(
                    t,
                    render_toks(m, toks.drop_first(), err),
                ),
            },
        }
    }
}

/// What rendering a template against a mapping produces.
pub open spec fn spec_render(m: Map<Seq<char>, ValueModel>, s: Seq<char>) -> RenderResult {
    render_toks(m, parse::spec_tokenize(s).0, parse::spec_tokenize(s).1)
}

/// Rendering is the identity on templates without placeholders: a
/// template in which `{{` occurs nowhere renders to itself, whatever the
/// context holds.
pub proof fn lemma_render_without_placeholders(m: Map<Seq<char>, ValueModel>, s: Seq<char>)
    requires
        forall|i: int| 0 <= i < s.len() - 1 ==> !(s[i] == '{' && #[trigger] s[i + 1] == '{'),
    ensures
        spec_render(m, s) == RenderResult::Rendered(s),
{
    parse::lemma_tokenize_without_placeholders(s);
    if s.len() > 0 {
        let toks = seq![TokenModel::TokText(s)];
        assert(toks.drop_first().len() == 0);
        assert(render_toks(m, toks.drop_first(), None::<parse::Error>)
            == RenderResult::Rendered(Seq::<char>::empty()));
        assert(toks[0] == TokenModel::TokText(s));
        assert(render_toks(m, toks, None::<parse::Error>) == prepend_text(
            s,
            RenderResult::Rendered(Seq::<char>::empty()),
        ));
        assert(s + Seq::<char>::empty() =~= s);
    } else {
        assert(Seq::<char>::empty() =~= s);
    }
}

/// Write `value` at `segs[i..]` below `o`, forcing intermediate objects.
fn define_at(o: &mut Object, segs: &Vec<String>, i: usize, value: Value)
    requires
        object_wf(*old(o)),
        value_wf(value),
        i < segs@.len(),
        forall|j: int| 0 <= j < segs@.len() ==> prop_name_ok(#[trigger] segs@[j]@),
    ensures
        object_wf(*final(o)),
        object_model(*final(o)) == define_in(
            object_model(*old(o)),
            segs.deep_view().skip(i as int),
            value_model(value),
        ),
    decreases segs@.len() - i,
{
    let ghost m0 = object_model(*old(o));
    let ghost rest = segs.deep_view().skip(i as int);
    let len = segs.len();
    if i + 1 == len {
        o.add_property(segs[i].clone(), value);
        proof {
            assert(rest.len() == 1);
            assert(rest[0] == segs@[i as int]@);
        }
    } else {
        let ghost key = segs@[i as int]@;
        let taken = o.take(segs[i].as_str());
        let mut sub: Object = match taken {
            Option::Some(Value::Object(inner)) => inner,
            Option::Some(Value::Text(_)) => Object::new(),
            Option::None => Object::new(),
        };
        proof {
            assert(object_model(sub) == force_object_at(m0, key));
        }
        define_at(&mut sub, segs, i + 1, value);
        o.add_property(segs[i].clone(), Value::Object(sub));
        proof {
            assert(rest.drop_first() =~= segs.deep_view().skip(i + 1));
            assert(rest[0] == key);
            assert(object_model(*o) =~= define_in(m0, rest, value_model(value)));
        }
    }
}

impl Context {
    /// Create a new context with no variables defined.
    pub fn new() -> (r: Context)
        ensures
            context_model(r) == Map::<Seq<char>, ValueModel>::empty(),
            context_wf(r),
    {
        Context { vars: Object::new() }
    }

    /// Map a variable to a value for template expansion.
    ///
    /// Values are merged into existing definitions where possible:
    /// intermediate path segments that do not yet exist are created as
    /// empty objects, an intermediate string leaf is replaced by a fresh
    /// object, and the final segment's value overwrites any previous
    /// value under that name.
    pub fn define(&mut self, var: Variable, value: Value)
        requires
            context_wf(*old(self)),
            define_ok(var),
            value_wf(value),
        ensures
            context_wf(*final(self)),
            context_model(*final(self)) == define_model(
                context_model(*old(self)),
                var_model(var),
                value_model(value),
            ),
    {
        let ghost m0 = context_model(*old(self));
        let ghost path = var_model(var);
        match var.inner {
            VariableInner::Single(s) => {
                proof {
                    assert(path[0] == s@);
                    assert(prop_name_ok(path[0]));
                }
                let taken = self.vars.take(s.as_str());
                match taken {
                    Option::None => {
                        self.vars.add_property(s, value);
                    },
                    Option::Some(Value::Text(_)) => {
                        self.vars.add_property(s, value);
                        proof {
                            assert(m0.remove(s@).insert(s@, value_model(value)) =~= m0.insert(
                                s@,
                                value_model(value),
                            ));
                        }
                    },
                    Option::Some(Value::Object(mut o)) => {
                        o.add_property(s.clone(), value);
                        let ghost om = object_model(o);
                        self.vars.add_property(s, Value::Object(o));
                        proof {
                            assert(m0.remove(s@).insert(s@, ValueModel::Object(om)) =~= m0.insert(
                                s@,
                                ValueModel::Object(om),
                            ));
                        }
                    },
                }
            },
            VariableInner::Segments(segs) => {
                proof {
                    assert(segs.deep_view().skip(0) =~= segs.deep_view());
                    assert forall|j: int| 0 <= j < segs@.len() implies prop_name_ok(
                        #[trigger] segs@[j]@,
                    ) by {
                        assert(path[j] == segs@[j]@);
                        assert(prop_name_ok(path[j]));
                    }
                }
                define_at(&mut self.vars, &segs, 0, value);
            },
        }
    }

    /// Builder version of [`define`](Context::define).
    pub fn with_define(self, var: Variable, value: Value) -> (r: Context)
        requires
            context_wf(self),
            define_ok(var),
            value_wf(value),
        ensures
            context_wf(r),
            context_model(r) == define_model(
                context_model(self),
                var_model(var),
                value_model(value),
            ),
    {
        let mut this = self;
        this.define(var, value);
        this
    }

    /// Resolve a variable added with [`define`](Context::define).
    ///
    /// Walks the top-level name, then each further segment via object
    /// property lookup; returns `None` where any step is missing or an
    /// intermediate step is a string leaf.
    #[verifier::loop_isolation(false)]
    pub fn get_value(&self, var: &Variable) -> (r: Option<&Value>)
        requires
            context_wf(*self),
            var_wf(*var),
        ensures
            match r {
                Option::Some(v) => {
                    &&& lookup_path(context_model(*self), var_model(*var)) == Some(value_model(*v))
                    &&& value_wf(*v)
                },
                Option::None => lookup_path(context_model(*self), var_model(*var)) is None,
            },
    {
        let ghost m = context_model(*self);
        let ghost path = var_model(*var);
        match &var.inner {
            VariableInner::Single(s) => {
                let r = self.vars.property(s.as_str());
                proof {
                    assert(path.drop_first() =~= path.skip(1));
                    assert(path[0] == s@);
                }
                r
            },
            VariableInner::Segments(segs) => {
                let n = segs.len();
                let first = match self.vars.property(segs[0].as_str()) {
                    Option::None => {
                        return None;
                    },
                    Option::Some(v) => v,
                };
                proof {
                    assert(path.drop_first() =~= path.skip(1));
                    assert(path[0] == segs@[0]@);
                }
                let mut parent: &Value = first;
                let mut i: usize = 1;
                while i < n
                    invariant
                        1 <= i <= n,
                        n == segs@.len(),
                        value_wf(*parent),
                        lookup_path(m, path) == drill(value_model(*parent), path.skip(i as int)),
                    decreases n - i,
                {
                    proof {
                        assert(path.skip(i as int)[0] == segs@[i as int]@);
                        assert(path.skip(i as int).drop_first() =~= path.skip(i + 1));
                    }
                    match parent {
                        Value::Text(_) => {
                            return None;
                        },
                        Value::Object(o) => {
                            match o.property(segs[i].as_str()) {
                                Option::None => {
                                    return None;
                                },
                                Option::Some(v) => {
                                    parent = v;
                                },
                            }
                        },
                    }
                    i += 1;
                }
                proof {
                    assert(path.skip(n as int).len() == 0);
                }
                Some(parent)
            },
        }
    }

    /// Expand a single variable to its text.
    ///
    /// Fails where the variable is not defined, and where it resolves to
    /// an object rather than a string leaf.
    pub fn expand(&self, var: &Variable) -> (r: Result<String, Error>)
        requires
            context_wf(*self),
            var_wf(*var),
        ensures
            match lookup_path(context_model(*self), var_model(*var)) {
                Option::None => r matches Err(Error::MissingVariable(v)) && var_model(v)
                    == var_model(*var) && var_wf(v),
                Option::Some(ValueModel::Leaf(t)) => r is Ok && r->Ok_0@ == t,
                Option::Some(ValueModel::Object(_)) => r matches Err(
                    Error::TriedToExpandObject(v),
                ) && var_model(v) == var_model(*var) && var_wf(v),
            },
    {
        match self.get_value(var) {
            Option::None => Err(Error::MissingVariable(var.clone().into_owned())),
            Option::Some(val) => match val {
                Value::Object(_) => Err(Error::TriedToExpandObject(var.clone().into_owned())),
                Value::Text(s) => Ok(s.clone()),
            },
        }
    }

    /// Render a template.
    ///
    /// Each literal run is copied verbatim and each placeholder is
    /// expanded; the first failure aborts the whole render, with no
    /// partial output.
    #[verifier::loop_isolation(false)]
    pub fn render(&self, input: &str) -> (r: Result<String, Error>)
        requires
            context_wf(*self),
        ensures
            match spec_render(context_model(*self), input@) {
                RenderResult::Rendered(o) => r is Ok && r->Ok_0@ == o,
                RenderResult::RenderFailed(f) => match f {
                    RenderErr::RenderParse(e) => r == Err::<String, Error>(Error::Parse(e)),
                    RenderErr::RenderMissing(p) => r matches Err(Error::MissingVariable(v))
                        && var_model(v) == p && var_wf(v),
                    RenderErr::RenderExpandObject(p) => r matches Err(
                        Error::TriedToExpandObject(v),
                    ) && var_model(v) == p && var_wf(v),
                },
            },
    {
        let ghost m = context_model(*self);
        let ghost target = spec_render(m, input@);
        let mut tokens = Tokenize::new(input);
        let mut output = String::new();
        loop
            invariant
                tokens.wf(),
                prepend_text(
                    output@,
                    render_toks(m, tokens.remaining().0, tokens.remaining().1),
                ) == target,
            decreases tokens.remaining().0.len() + (if tokens.remaining().1 is Some {
                1int
            } else {
                0int
            }),
        {
            let ghost toks = tokens.remaining().0;
            let ghost err = tokens.remaining().1;
            match tokens.next() {
                Option::None => {
                    proof {
                        assert(output@ + Seq::<char>::empty() =~= output@);
                    }
                    return Ok(output);
                },
                Option::Some(Result::Err(e)) => {
                    return Err(Error::Parse(e));
                },
                Option::Some(Result::Ok(t)) => {
                    match t {
                        Token::Str(s) => {
                            proof {
                                match render_toks(m, toks.drop_first(), err) {
                                    RenderResult::Rendered(o) => {
                                        assert((output@ + s@) + o =~= output@ + (s@ + o));
                                    },
                                    RenderResult::RenderFailed(_) => {
                                    },
                                }
                            }
                            output.append(s.as_str());
                        },
                        Token::Variable(v) => {
                            match self.expand(&v) {
                                Result::Ok(s) => {
                                    proof {
                                        match render_toks(m, toks.drop_first(), err) {
                                            RenderResult::Rendered(o) => {
                                                assert((output@ + s@) + o =~= output@ + (s@ + o));
                                            },
                                            RenderResult::RenderFailed(_) => {
                                            },
                                        }
                                    }
                                    output.append(s.as_str());
                                },
                                Result::Err(e) => {
                                    return Err(e);
                                },
                            }
                        },
                    }
                },
            }
        }
    }

    /// Append another context's top-level bindings.
    ///
    /// Later definitions for the same top-level name fully replace
    /// earlier ones: this is a bulk, non-recursive union, distinct from
    /// the per-path merge of [`define`](Context::define).
    #[verifier::loop_isolation(false)]
    pub fn append(&mut self, other: Context)
        requires
            context_wf(*old(self)),
            context_wf(other),
        ensures
            context_wf(*final(self)),
            context_model(*final(self)) == context_model(*old(self)).union_prefer_right(
                context_model(other),
            ),
    {
        let ghost m0 = context_model(*old(self));
        let ghost oseq = other.vars.entries@;
        let ghost n = oseq.len() as int;
        let other = other;
        let mut rest = other.vars.entries;
        let ghost mut i: int = 0;
        proof {
            assert(m0.union_prefer_right(entries_model(oseq, 0)) =~= m0);
        }
        while rest.len() > 0
            invariant
                0 <= i <= n,
                rest@ == oseq.skip(i),
                context_wf(*self),
                context_model(*self) == m0.union_prefer_right(entries_model(oseq, i)),
            decreases rest@.len(),
        {
            let pair = rest.remove(0);
            proof {
                assert(oseq.skip(i)[0] == oseq[i]);
                assert(oseq.skip(i).remove(0) =~= oseq.skip(i + 1));
                assert(prop_name_ok(oseq[i].0@) && value_wf(oseq[i].1));
            }
            let ghost prev = context_model(*self);
            self.vars.add_property(pair.0, pair.1);
            proof {
                assert(prev.insert(oseq[i].0@, value_model(oseq[i].1))
                    =~= m0.union_prefer_right(entries_model(oseq, i + 1)));
                i = i + 1;
            }
        }
        proof {
            assert(i == n);
        }
    }

    /// Stream version of [`append`](Context::append).
    pub fn merge(self, other: Context) -> (r: Context)
        requires
            context_wf(self),
            context_wf(other),
        ensures
            context_wf(r),
            context_model(r) == context_model(self).union_prefer_right(context_model(other)),
    {
        let mut this = self;
        this.append(other);
        this
    }

    /// Apply a sequence of definitions, in order.
    #[verifier::loop_isolation(false)]
    pub fn extend(&mut self, defs: Vec<(Variable, Value)>)
        requires
            context_wf(*old(self)),
            forall|j: int|
                0 <= j < defs@.len() ==> define_ok(#[trigger] defs@[j].0) && value_wf(defs@[j].1),
        ensures
            context_wf(*final(self)),
            context_model(*final(self)) == defines_fold(
                context_model(*old(self)),
                defs@,
                defs@.len() as int,
            ),
    {
        let ghost m0 = context_model(*old(self));
        let ghost oseq = defs@;
        let ghost n = oseq.len() as int;
        let mut rest = defs;
        let ghost mut i: int = 0;
        while rest.len() > 0
            invariant
                0 <= i <= n,
                rest@ == oseq.skip(i),
                context_wf(*self),
                context_model(*self) == defines_fold(m0, oseq, i),
            decreases rest@.len(),
        {
            let pair = rest.remove(0);
            proof {
                assert(oseq.skip(i)[0] == oseq[i]);
                assert(oseq.skip(i).remove(0) =~= oseq.skip(i + 1));
                assert(define_ok(oseq[i].0) && value_wf(oseq[i].1));
            }
            self.define(pair.0, pair.1);
            proof {
                i = i + 1;
            }
        }
    }

    /// Build a context from a sequence of definitions, applied in order.
    pub fn from_defines(defs: Vec<(Variable, Value)>) -> (r: Context)
        requires
            forall|j: int|
                0 <= j < defs@.len() ==> define_ok(#[trigger] defs@[j].0) && value_wf(defs@[j].1),
        ensures
            context_wf(r),
            context_model(r) == defines_fold(
                Map::<Seq<char>, ValueModel>::empty(),
                defs@,
                defs@.len() as int,
            ),
    {
        let mut this = Context::new();
        this.extend(defs);
        this
    }
}

} // verus!
