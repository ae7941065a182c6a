//! The `%var%` template language: a template string is split on `%` into
//! alternating literal and variable segments, and rendering substitutes an
//! ordered list of values for the variable occurrences.

use vstd::prelude::*;
use vstd::string::StringExecFns;
use crate::strutil::{chars_string, str_chars};

verus! {

/// One segment of a compiled template.
pub enum StringPart {
    Literal(String),
    Variable(String),
}

/// Specification-level segment: the character content of a `StringPart`.
pub enum PartV {
    Literal(Seq<char>),
    Variable(Seq<char>),
}

impl View for StringPart {
    type V = PartV;

    open spec fn view(&self) -> PartV {
        match self {
            StringPart::Literal(t) => PartV::Literal(t@),
            StringPart::Variable(v) => PartV::Variable(v@),
        }
    }
}

/// The segment that a finished token contributes: tokens at even split
/// positions are literals, tokens at odd positions are variables, and empty
/// tokens are dropped.
pub open spec fn emit_part(tok: Seq<char>, idx: int) -> Seq<PartV> {
    if tok.len() == 0 {
        Seq::empty()
    } else if idx % 2 == 0 {
        seq![PartV::Literal(tok)]
    } else {
        seq![PartV::Variable(tok)]
    }
}

/// Left fold of the template scanner: `tok` is the token accumulated so far
/// and `idx` counts the `%`-separated tokens already opened.
pub open spec fn tmpl_parts_from(s: Seq<char>, tok: Seq<char>, idx: int) -> Seq<PartV>
    decreases s.len(),
{
    if s.len() == 0 {
        emit_part(tok, idx)
    } else if s[0] == '%' {
        emit_part(tok, idx) + tmpl_parts_from(s.drop_first(), Seq::empty(), idx + 1)
    } else {
        tmpl_parts_from(s.drop_first(), tok.push(s[0]), idx)
    }
}

/// The segments of the template string `s`.
pub open spec fn template_parts(s: Seq<char>) -> Seq<PartV> {
    tmpl_parts_from(s, Seq::empty(), 0)
}

/// The variable names among `parts`, in order of appearance.
pub open spec fn vars_of(parts: Seq<PartV>) -> Seq<Seq<char>>
    decreases parts.len(),
{
    if parts.len() == 0 {
        Seq::empty()
    } else {
        (match parts[0] {
            PartV::Variable(v) => seq![v],
            PartV::Literal(_) => Seq::empty(),
        }) + vars_of(parts.drop_first())
    }
}

/// Rendering: literals are copied, and the `i`-th variable occurrence (from
/// `k` on) takes `vals[k + i]`, or the empty string when the values run out.
pub open spec fn render_parts(parts: Seq<PartV>, vals: Seq<Seq<char>>, k: int) -> Seq<char>
    decreases parts.len(),
{
    if parts.len() == 0 {
        Seq::empty()
    } else {
        match parts[0] {
            PartV::Literal(t) => t + render_parts(parts.drop_first(), vals, k),
            PartV::Variable(_) => (if 0 <= k < vals.len() {
                vals[k]
            } else {
                Seq::empty()
            }) + render_parts(parts.drop_first(), vals, k + 1),
        }
    }
}

pub proof fn lemma_vars_of_concat(p1: Seq<PartV>, p2: Seq<PartV>)
    ensures
        vars_of(p1 + p2) == vars_of(p1) + vars_of(p2),
    decreases p1.len(),
{
    if p1.len() == 0 {
        assert(p1 + p2 =~= p2);
        assert(vars_of(p1) + vars_of(p2) =~= vars_of(p2));
    } else {
        lemma_vars_of_concat(p1.drop_first(), p2);
        assert((p1 + p2).drop_first() =~= p1.drop_first() + p2);
        assert(vars_of(p1) + vars_of(p2) =~= (match p1[0] {
            PartV::Variable(v) => seq![v],
            PartV::Literal(_) => Seq::empty(),
        }) + (vars_of(p1.drop_first()) + vars_of(p2)));
    }
}

/// Rendering distributes over concatenation of part lists, with the value
/// index advanced past the variables of the first list.
pub proof fn lemma_render_concat(p1: Seq<PartV>, p2: Seq<PartV>, vals: Seq<Seq<char>>, k: int)
    ensures
        render_parts(p1 + p2, vals, k) == render_parts(p1, vals, k) + render_parts(
            p2,
            vals,
            k + vars_of(p1).len(),
        ),
    decreases p1.len(),
{
    if p1.len() == 0 {
        assert(p1 + p2 =~= p2);
        assert(render_parts(p1, vals, k) + render_parts(p2, vals, k + vars_of(p1).len())
            =~= render_parts(p2, vals, k));
    } else {
        assert((p1 + p2).drop_first() =~= p1.drop_first() + p2);
        match p1[0] {
            PartV::Literal(t) => {
                lemma_render_concat(p1.drop_first(), p2, vals, k);
                assert(render_parts(p1, vals, k) + render_parts(p2, vals, k + vars_of(p1).len())
                    =~= t + (render_parts(p1.drop_first(), vals, k) + render_parts(
                    p2,
                    vals,
                    k + vars_of(p1).len(),
                )));
            },
            PartV::Variable(_) => {
                lemma_render_concat(p1.drop_first(), p2, vals, k + 1);
                let head = if 0 <= k < vals.len() {
                    vals[k]
                } else {
                    Seq::<char>::empty()
                };
                assert(render_parts(p1, vals, k) + render_parts(p2, vals, k + vars_of(p1).len())
                    =~= head + (render_parts(p1.drop_first(), vals, k + 1) + render_parts(
                    p2,
                    vals,
                    k + 1 + vars_of(p1.drop_first()).len(),
                )));
            },
        }
    }
}

pub proof fn lemma_vars_of_single(p: PartV)
    ensures
        vars_of(seq![p]) == (match p {
            PartV::Variable(v) => seq![v],
            PartV::Literal(_) => Seq::<Seq<char>>::empty(),
        }),
{
    assert(seq![p].drop_first() =~= Seq::<PartV>::empty());
    assert(vars_of(Seq::<PartV>::empty()) =~= Seq::<Seq<char>>::empty());
    match p {
        PartV::Variable(v) => {
            assert(vars_of(seq![p]) =~= seq![v]);
        },
        PartV::Literal(_) => {
            assert(vars_of(seq![p]) =~= Seq::<Seq<char>>::empty());
        },
    }
}

pub proof fn lemma_render_single(p: PartV, vals: Seq<Seq<char>>, k: int)
    ensures
        render_parts(seq![p], vals, k) == (match p {
            PartV::Literal(t) => t,
            PartV::Variable(_) => if 0 <= k < vals.len() {
                vals[k]
            } else {
                Seq::<char>::empty()
            },
        }),
{
    assert(seq![p].drop_first() =~= Seq::<PartV>::empty());
    assert(render_parts(Seq::<PartV>::empty(), vals, k) =~= Seq::<char>::empty());
    assert(render_parts(Seq::<PartV>::empty(), vals, k + 1) =~= Seq::<char>::empty());
    match p {
        PartV::Literal(t) => {
            assert(render_parts(seq![p], vals, k) =~= t);
        },
        PartV::Variable(_) => {
            if 0 <= k < vals.len() {
                assert(render_parts(seq![p], vals, k) =~= vals[k]);
            } else {
                assert(render_parts(seq![p], vals, k) =~= Seq::<char>::empty());
            }
        },
    }
}

/// Substitution without a fallback: the `i`-th variable occurrence (from `k`
/// on) takes `vals[k + i]` outright, so this is only meaningful when enough
/// values are supplied.
pub open spec fn subst_exact(parts: Seq<PartV>, vals: Seq<Seq<char>>, k: int) -> Seq<char>
    decreases parts.len(),
{
    if parts.len() == 0 {
        Seq::empty()
    } else {
        match parts[0] {
            PartV::Literal(t) => t + subst_exact(parts.drop_first(), vals, k),
            PartV::Variable(_) => vals[k] + subst_exact(parts.drop_first(), vals, k + 1),
        }
    }
}

proof fn lemma_render_is_subst_exact(parts: Seq<PartV>, vals: Seq<Seq<char>>, k: int)
    requires
        0 <= k,
        k + vars_of(parts).len() <= vals.len(),
    ensures
        render_parts(parts, vals, k) == subst_exact(parts, vals, k),
    decreases parts.len(),
{
    if parts.len() > 0 {
        match parts[0] {
            PartV::Literal(_) => {
                lemma_render_is_subst_exact(parts.drop_first(), vals, k);
            },
            PartV::Variable(_) => {
                assert(vars_of(parts).len() == 1 + vars_of(parts.drop_first()).len());
                lemma_render_is_subst_exact(parts.drop_first(), vals, k + 1);
            },
        }
    }
}

/// Round trip of the template language: when a template is compiled and then
/// rendered with exactly one value per variable occurrence, the output
/// reproduces the literals verbatim and substitutes the values positionally;
/// the empty-string fallback for missing values never fires.
pub proof fn lemma_template_round_trip(s: Seq<char>, vals: Seq<Seq<char>>)
    requires
        vals.len() == vars_of(template_parts(s)).len(),
    ensures
        render_parts(template_parts(s), vals, 0) == subst_exact(template_parts(s), vals, 0),
{
    lemma_render_is_subst_exact(template_parts(s), vals, 0);
}

/// A compiled template: ordered literal and variable segments.
pub struct FormatString {
    pub parts: Vec<StringPart>,
    pub vars: Vec<String>,
}

impl FormatString {
    /// The segments of this template.
    pub open spec fn parts_view(&self) -> Seq<PartV> {
        self.parts@.map_values(|p: StringPart| p@)
    }

    /// A compiled template is the scan of some source string, and `vars`
    /// lists the names of its variable segments in order.
    pub open spec fn wf(&self) -> bool {
        self.vars@.map_values(|v: String| v@) == vars_of(self.parts_view())
    }

    /// Splits `format` on `%`: tokens at even positions become literals,
    /// tokens at odd positions become variables, empty tokens are dropped.
    pub fn parse(format: &str) -> (r: FormatString)
        ensures
            r.parts_view() == template_parts(format@),
            r.wf(),
    {
        let s = str_chars(format);
        let ghost sv = format@;
        let mut parts: Vec<StringPart> = Vec::new();
        let mut vars: Vec<String> = Vec::new();
        let mut cur: Vec<char> = Vec::new();
        let mut idx: usize = 0;
        let mut i: usize = 0;
        proof {
            assert(sv.skip(0) =~= sv);
            assert(parts@.map_values(|p: StringPart| p@) =~= Seq::<PartV>::empty());
            assert(vars@.map_values(|v: String| v@) =~= Seq::<Seq<char>>::empty());
            assert(Seq::<PartV>::empty() + template_parts(sv) =~= template_parts(sv));
        }
        while i < s.len()
            invariant
                s@ == sv,
                i <= s.len(),
                template_parts(sv) == parts@.map_values(|p: StringPart| p@) + tmpl_parts_from(
                    sv.skip(i as int),
                    cur@,
                    idx as int,
                ),
                idx <= i,
                vars@.map_values(|v: String| v@) == vars_of(
                    parts@.map_values(|p: StringPart| p@),
                ),
            decreases s.len() - i,
        {
            let ghost old_parts = parts@.map_values(|p: StringPart| p@);
            let ghost old_cur = cur@;
            let c = s[i];
            proof {
                assert(sv.skip(i as int).drop_first() =~= sv.skip(i as int + 1));
                assert(sv.skip(i as int)[0] == sv[i as int]);
            }
            if c == '%' {
                let ghost emitted = emit_part(cur@, idx as int);
                let ghost rest = tmpl_parts_from(
                    sv.skip(i as int + 1),
                    Seq::<char>::empty(),
                    idx as int + 1,
                );
                proof {
                    assert(tmpl_parts_from(sv.skip(i as int), cur@, idx as int) == emitted + rest);
                    assert(old_parts + (emitted + rest) =~= (old_parts + emitted) + rest);
                }
                if cur.len() > 0 {
                    let tok = chars_string(&cur);
                    if idx % 2 == 0 {
                        parts.push(StringPart::Literal(tok));
                    } else {
                        vars.push(tok.clone());
                        parts.push(StringPart::Variable(tok));
                    }
                    proof {
                        assert(parts@.map_values(|p: StringPart| p@) =~= old_parts + emitted);
                        lemma_vars_of_concat(old_parts, emitted);
                        lemma_vars_of_single(emitted[0]);
                        assert(emitted =~= seq![emitted[0]]);
                        assert(vars@.map_values(|v: String| v@) =~= vars_of(
                            parts@.map_values(|p: StringPart| p@),
                        ));
                    }
                    cur = Vec::new();
                } else {
                    proof {
                        assert(parts@.map_values(|p: StringPart| p@) =~= old_parts + emitted);
                        assert(cur@ =~= Seq::<char>::empty());
                    }
                }
                idx += 1;
                proof {
                    assert(template_parts(sv) == parts@.map_values(|p: StringPart| p@)
                        + tmpl_parts_from(sv.skip(i as int + 1), cur@, idx as int));
                }
            } else {
                cur.push(c);
                proof {
                    assert(tmpl_parts_from(sv.skip(i as int), old_cur, idx as int)
                        == tmpl_parts_from(sv.skip(i as int + 1), cur@, idx as int));
                    assert(template_parts(sv) == parts@.map_values(|p: StringPart| p@)
                        + tmpl_parts_from(sv.skip(i as int + 1), cur@, idx as int));
                }
            }
            i += 1;
        }
        proof {
            assert(sv.skip(i as int) =~= Seq::<char>::empty());
        }
        let ghost old_parts = parts@.map_values(|p: StringPart| p@);
        let ghost emitted = emit_part(cur@, idx as int);
        if cur.len() > 0 {
            let tok = chars_string(&cur);
            if idx % 2 == 0 {
                parts.push(StringPart::Literal(tok));
            } else {
                vars.push(tok.clone());
                parts.push(StringPart::Variable(tok));
            }
        }
        proof {
            assert(parts@.map_values(|p: StringPart| p@) =~= old_parts + emitted);
            lemma_vars_of_concat(old_parts, emitted);
            if emitted.len() > 0 {
                lemma_vars_of_single(emitted[0]);
                assert(emitted =~= seq![emitted[0]]);
            }
            assert(vars@.map_values(|v: String| v@) =~= vars_of(
                parts@.map_values(|p: StringPart| p@),
            ));
        }
        FormatString { parts, vars }
    }

    /// Concatenates the literals and substitutes, for each variable
    /// occurrence in order, the next unused entry of `vals`; occurrences
    /// beyond the end of `vals` render as the empty string.
    pub fn generate_string(&self, vals: &Vec<String>) -> (r: String)
        ensures
            r@ == render_parts(self.parts_view(), vals.deep_view(), 0),
    {
        let mut res = String::new();
        let mut var_index: usize = 0;
        let mut j: usize = 0;
        let ghost pv = self.parts_view();
        let ghost vv = vals.deep_view();
        while j < self.parts.len()
            invariant
                pv == self.parts_view(),
                vv == vals.deep_view(),
                j <= self.parts.len(),
                pv.len() == self.parts.len(),
                var_index == vars_of(pv.take(j as int)).len(),
                var_index <= j,
                res@ == render_parts(pv.take(j as int), vv, 0),
            decreases self.parts.len() - j,
        {
            let ghost pre = pv.take(j as int);
            proof {
                assert(pv.take(j as int + 1) =~= pre + seq![pv[j as int]]);
                lemma_render_concat(pre, seq![pv[j as int]], vv, 0);
                lemma_vars_of_concat(pre, seq![pv[j as int]]);
                lemma_render_single(pv[j as int], vv, vars_of(pre).len() as int);
                lemma_vars_of_single(pv[j as int]);
                assert(vals@.len() == vv.len());
            }
            match &self.parts[j] {
                StringPart::Literal(t) => {
                    res.append(t.as_str());
                    proof {
                        assert(render_parts(seq![pv[j as int]], vv, vars_of(pre).len() as int)
                            =~= t@);
                        assert(res@ =~= render_parts(pv.take(j as int + 1), vv, 0));
                        assert(vars_of(pv.take(j as int + 1)) =~= vars_of(pre));
                    }
                },
                StringPart::Variable(_) => {
                    if var_index < vals.len() {
                        res.append(vals[var_index].as_str());
                        proof {
                            assert(vals.deep_view()[var_index as int] == vals@[var_index as int]@);
                            assert(render_parts(seq![pv[j as int]], vv, vars_of(pre).len() as int)
                                =~= vv[var_index as int]);
                        }
                    } else {
                        proof {
                            assert(render_parts(seq![pv[j as int]], vv, vars_of(pre).len() as int)
                                =~= Seq::<char>::empty());
                        }
                    }
                    proof {
                        assert(res@ =~= render_parts(pv.take(j as int + 1), vv, 0));
                        assert(vars_of(pv.take(j as int + 1)) =~= vars_of(pre) + seq![
                            match pv[j as int] {
                                PartV::Variable(v) => v,
                                PartV::Literal(t) => t,
                            },
                        ]);
                    }
                    var_index += 1;
                },
            }
            j += 1;
        }
        proof {
            assert(pv.take(self.parts.len() as int) =~= pv);
        }
        res
    }
}

/// Binding of declared variable names to capture slots: every anonymous slot
/// consumes, by position, the next entry of `declared` (named slots consume
/// nothing), and is named after it when that entry supplies a name.
pub open spec fn bind_slots(
    slots: Seq<Option<Seq<char>>>,
    declared: Seq<Option<Seq<char>>>,
    k: int,
) -> Seq<Option<Seq<char>>>
    decreases slots.len(),
{
    if slots.len() == 0 {
        Seq::empty()
    } else {
        match slots[0] {
            Some(n) => seq![Some(n)] + bind_slots(slots.drop_first(), declared, k),
            None => {
                let bound = if 0 <= k < declared.len() {
                    declared[k]
                } else {
                    None
                };
                seq![bound] + bind_slots(slots.drop_first(), declared, k + 1)
            },
        }
    }
}

/// Number of anonymous slots.
pub open spec fn anon_count(slots: Seq<Option<Seq<char>>>) -> int
    decreases slots.len(),
{
    if slots.len() == 0 {
        0
    } else {
        (if slots[0] is None {
            1int
        } else {
            0int
        }) + anon_count(slots.drop_first())
    }
}

pub proof fn lemma_anon_count_concat(s1: Seq<Option<Seq<char>>>, s2: Seq<Option<Seq<char>>>)
    ensures
        anon_count(s1 + s2) == anon_count(s1) + anon_count(s2),
    decreases s1.len(),
{
    if s1.len() == 0 {
        assert(s1 + s2 =~= s2);
    } else {
        lemma_anon_count_concat(s1.drop_first(), s2);
        assert((s1 + s2).drop_first() =~= s1.drop_first() + s2);
    }
}

pub proof fn lemma_bind_slots_concat(
    s1: Seq<Option<Seq<char>>>,
    s2: Seq<Option<Seq<char>>>,
    declared: Seq<Option<Seq<char>>>,
    k: int,
)
    ensures
        bind_slots(s1 + s2, declared, k) == bind_slots(s1, declared, k) + bind_slots(
            s2,
            declared,
            k + anon_count(s1),
        ),
    decreases s1.len(),
{
    if s1.len() == 0 {
        assert(s1 + s2 =~= s2);
        assert(bind_slots(s1, declared, k) + bind_slots(s2, declared, k) =~= bind_slots(
            s2,
            declared,
            k,
        ));
    } else {
        assert((s1 + s2).drop_first() =~= s1.drop_first() + s2);
        match s1[0] {
            Some(n) => {
                lemma_bind_slots_concat(s1.drop_first(), s2, declared, k);
                assert(bind_slots(s1, declared, k) + bind_slots(s2, declared, k + anon_count(s1))
                    =~= seq![Some(n)] + (bind_slots(s1.drop_first(), declared, k) + bind_slots(
                    s2,
                    declared,
                    k + anon_count(s1),
                )));
            },
            None => {
                lemma_bind_slots_concat(s1.drop_first(), s2, declared, k + 1);
                let bound = if 0 <= k < declared.len() {
                    declared[k]
                } else {
                    None
                };
                assert(bind_slots(s1, declared, k) + bind_slots(s2, declared, k + anon_count(s1))
                    =~= seq![bound] + (bind_slots(s1.drop_first(), declared, k + 1) + bind_slots(
                    s2,
                    declared,
                    k + 1 + anon_count(s1.drop_first()),
                )));
            },
        }
    }
}

/// The pairs that field extraction yields: for each named slot `vars[j]`,
/// the text of capture group `i + j` when that group took part in the match;
/// anonymous slots and absent groups contribute nothing.
pub open spec fn extract_pairs(
    vars: Seq<Option<Seq<char>>>,
    groups: Seq<Option<Seq<char>>>,
    i: int,
) -> Seq<(Seq<char>, Seq<char>)>
    decreases vars.len(),
{
    if vars.len() == 0 {
        Seq::empty()
    } else {
        (match vars[0] {
            Some(name) => if 0 <= i < groups.len() && groups[i] is Some {
                seq![(name, groups[i]->0)]
            } else {
                Seq::empty()
            },
            None => Seq::empty(),
        }) + extract_pairs(vars.drop_first(), groups, i + 1)
    }
}

pub proof fn lemma_extract_pairs_concat(
    v1: Seq<Option<Seq<char>>>,
    v2: Seq<Option<Seq<char>>>,
    groups: Seq<Option<Seq<char>>>,
    i: int,
)
    ensures
        extract_pairs(v1 + v2, groups, i) == extract_pairs(v1, groups, i) + extract_pairs(
            v2,
            groups,
            i + v1.len(),
        ),
    decreases v1.len(),
{
    if v1.len() == 0 {
        assert(v1 + v2 =~= v2);
        assert(extract_pairs(v1, groups, i) + extract_pairs(v2, groups, i) =~= extract_pairs(
            v2,
            groups,
            i,
        ));
    } else {
        lemma_extract_pairs_concat(v1.drop_first(), v2, groups, i + 1);
        assert((v1 + v2).drop_first() =~= v1.drop_first() + v2);
        let head = match v1[0] {
            Some(name) => if 0 <= i < groups.len() && groups[i] is Some {
                seq![(name, groups[i]->0)]
            } else {
                Seq::<(Seq<char>, Seq<char>)>::empty()
            },
            None => Seq::<(Seq<char>, Seq<char>)>::empty(),
        };
        assert(extract_pairs(v1, groups, i) + extract_pairs(v2, groups, i + v1.len()) =~= head + (
        extract_pairs(v1.drop_first(), groups, i + 1) + extract_pairs(
            v2,
            groups,
            i + 1 + v1.drop_first().len(),
        )));
    }
}

/// A compiled pattern: the source of the capturing regular expression it
/// compiled to, and its capture slots after binding declared variable names.
pub struct PatternString {
    regex: String,
    vars: Vec<Option<String>>,
}

impl PatternString {
    /// The source of the compiled regular expression.
    pub closed spec fn regex_view(&self) -> Seq<char> {
        self.regex@
    }

    /// The bound capture slots, one per capturing group.
    pub closed spec fn vars_view(&self) -> Seq<Option<Seq<char>>> {
        self.vars.deep_view()
    }

    /// The regular expression of a compiled pattern is accepted by the
    /// regex engine.
    pub closed spec fn wf(&self) -> bool {
        crate::outside::regex_compiles(self.regex@)
    }

    /// Compiles the pattern mini-language source and binds the declared
    /// variable names to its anonymous capture slots, in positional order.
    /// Fails when the pattern is malformed and when the compiled regular
    /// expression is rejected by the regex engine.
    pub fn parse(pattern: &str, vars: Vec<Option<String>>) -> (r: Result<
        PatternString,
        crate::error::FOError,
    >)
        ensures
            match crate::parser::pattern_compile(pattern@) {
                Option::None => r matches Err(e) && e matches crate::error::FOError::PatternError(
                    _,
                ),
                Option::Some(cr) => if crate::outside::regex_compiles(cr.1) {
                    &&& r is Ok
                    &&& r->Ok_0.wf()
                    &&& r->Ok_0.regex_view() == cr.1
                    &&& r->Ok_0.vars_view() == bind_slots(cr.0, vars.deep_view(), 0)
                } else {
                    r matches Err(e) && e matches crate::error::FOError::PatternError(_)
                },
            },
    {
        let chars = str_chars(pattern);
        let compiled = crate::parser::any(&chars, 0);
        proof {
            assert(chars@.skip(0) =~= pattern@);
        }
        match compiled {
            Option::None => Result::Err(
                crate::error::FOError::PatternError(String::from_str("invalid pattern syntax")),
            ),
            Option::Some((end, slots, rx)) => {
                if end < chars.len() {
                    return Result::Err(
                        crate::error::FOError::PatternError(
                            String::from_str("pattern has trailing input that fits no element"),
                        ),
                    );
                }
                if !crate::outside::regex_syntax_ok(rx.as_str()) {
                    return Result::Err(
                        crate::error::FOError::PatternError(
                            String::from_str("pattern compiles to an unsupported expression"),
                        ),
                    );
                }
                let bound = bind_vars(&slots, &vars);
                Result::Ok(PatternString { regex: rx, vars: bound })
            },
        }
    }

    /// Runs the compiled regular expression against `input`.  `None` when
    /// the regex does not match; on a match, one `(name, captured text)`
    /// pair for every named slot whose group took part in the match, in slot
    /// order.
    pub fn get_data(&self, input: &str) -> (r: Option<Vec<(String, String)>>)
        requires
            self.wf(),
        ensures
            match crate::outside::regex_groups_of(self.regex_view(), input@) {
                Option::None => r is None,
                Option::Some(groups) => r matches Some(pairs) && pairs.deep_view()
                    == extract_pairs(self.vars_view(), groups, 0),
            },
    {
        let groups = match crate::outside::regex_capture_groups(self.regex.as_str(), input) {
            Option::None => {
                return Option::None;
            },
            Option::Some(g) => g,
        };
        let ghost gv = crate::outside::regex_groups_of(self.regex@, input@)->0;
        proof {
            assert(groups.deep_view() == gv);
            assert(groups.deep_view().len() == groups@.len());
        }
        let mut res: Vec<(String, String)> = Vec::new();
        let mut j: usize = 0;
        let ghost vv = self.vars.deep_view();
        proof {
            assert(vv.take(0) =~= Seq::<Option<Seq<char>>>::empty());
            assert(res.deep_view() =~= extract_pairs(vv.take(0), gv, 0));
        }
        while j < self.vars.len()
            invariant
                j <= self.vars.len(),
                vv == self.vars.deep_view(),
                vv.len() == self.vars.len(),
                gv == groups.deep_view(),
                gv.len() == groups@.len(),
                res.deep_view() == extract_pairs(vv.take(j as int), gv, 0),
            decreases self.vars.len() - j,
        {
            let ghost pre = vv.take(j as int);
            proof {
                assert(vv.take(j as int + 1) =~= pre + seq![vv[j as int]]);
                lemma_extract_pairs_concat(pre, seq![vv[j as int]], gv, 0);
                assert(seq![vv[j as int]].drop_first() =~= Seq::<Option<Seq<char>>>::empty());
                assert(extract_pairs(Seq::<Option<Seq<char>>>::empty(), gv, j as int + 1) =~= Seq::<
                    (Seq<char>, Seq<char>),
                >::empty());
                assert(pre.len() == j as int);
            }
            let ghost old_res = res.deep_view();
            match &self.vars[j] {
                Option::Some(name) => {
                    if j < groups.len() {
                        match &groups[j] {
                            Option::Some(text) => {
                                res.push((name.clone(), text.clone()));
                                proof {
                                    assert(vv[j as int] == Some(name@));
                                    assert(gv[j as int] == Some(text@));
                                    assert(res.deep_view() =~= old_res + seq![(name@, text@)]);
                                }
                            },
                            Option::None => {
                                proof {
                                    assert(gv[j as int] is None);
                                    assert(res.deep_view() =~= old_res
                                        + Seq::<(Seq<char>, Seq<char>)>::empty());
                                }
                            },
                        }
                    } else {
                        proof {
                            assert(res.deep_view() =~= old_res + Seq::<(
                                Seq<char>,
                                Seq<char>,
                            )>::empty());
                        }
                    }
                },
                Option::None => {
                    proof {
                        assert(vv[j as int] is None);
                        assert(res.deep_view() =~= old_res + Seq::<(Seq<char>, Seq<char>)>::empty());
                    }
                },
            }
            proof {
                assert(res.deep_view() =~= extract_pairs(vv.take(j as int + 1), gv, 0));
            }
            j += 1;
        }
        proof {
            assert(vv.take(self.vars.len() as int) =~= vv);
        }
        Option::Some(res)
    }
}

/// Walks the compiled slots and fills every anonymous one with the next
/// declared variable name, by position.
fn bind_vars(slots: &Vec<Option<String>>, declared: &Vec<Option<String>>) -> (r: Vec<
    Option<String>,
>)
    ensures
        r.deep_view() == bind_slots(slots.deep_view(), declared.deep_view(), 0),
{
    let mut out: Vec<Option<String>> = Vec::new();
    let mut k: usize = 0;
    let ghost sv = slots.deep_view();
    let ghost dv = declared.deep_view();
    proof {
        assert(sv.take(0) =~= Seq::<Option<Seq<char>>>::empty());
        assert(out.deep_view() =~= bind_slots(sv.take(0), dv, 0));
    }
    let mut j: usize = 0;
    while j < slots.len()
        invariant
            j <= slots.len(),
            sv == slots.deep_view(),
            dv == declared.deep_view(),
            sv.len() == slots.len(),
            dv.len() == declared.len(),
            k == anon_count(sv.take(j as int)),
            k <= j,
            out.deep_view() == bind_slots(sv.take(j as int), dv, 0),
        decreases slots.len() - j,
    {
        let ghost pre = sv.take(j as int);
        proof {
            assert(sv.take(j as int + 1) =~= pre + seq![sv[j as int]]);
            lemma_bind_slots_concat(pre, seq![sv[j as int]], dv, 0);
            assert(seq![sv[j as int]].drop_first() =~= Seq::<Option<Seq<char>>>::empty());
            assert(bind_slots(Seq::<Option<Seq<char>>>::empty(), dv, anon_count(pre) + 1)
                =~= Seq::<Option<Seq<char>>>::empty());
            assert(bind_slots(Seq::<Option<Seq<char>>>::empty(), dv, anon_count(pre)) =~= Seq::<
                Option<Seq<char>>,
            >::empty());
            assert(anon_count(seq![sv[j as int]].drop_first()) == 0);
            lemma_anon_count_concat(pre, seq![sv[j as int]]);
        }
        let ghost old_out = out.deep_view();
        match &slots[j] {
            Option::Some(name) => {
                out.push(Option::Some(name.clone()));
                proof {
                    assert(sv[j as int] == Some(name@));
                    assert(out.deep_view() =~= old_out + seq![Option::Some(name@)]);
                    assert(anon_count(sv.take(j as int + 1)) == anon_count(pre));
                }
            },
            Option::None => {
                if k < declared.len() {
                    match &declared[k] {
                        Option::Some(var) => {
                            out.push(Option::Some(var.clone()));
                            proof {
                                assert(dv[k as int] == Some(var@));
                                assert(out.deep_view() =~= old_out + seq![Option::Some(var@)]);
                            }
                        },
                        Option::None => {
                            out.push(Option::None);
                            proof {
                                assert(dv[k as int] is None);
                                assert(out.deep_view() =~= old_out + seq![
                                    Option::<Seq<char>>::None,
                                ]);
                            }
                        },
                    }
                } else {
                    out.push(Option::None);
                    proof {
                        assert(out.deep_view() =~= old_out + seq![Option::<Seq<char>>::None]);
                    }
                }
                proof {
                    assert(sv[j as int] is None);
                    assert(anon_count(sv.take(j as int + 1)) == anon_count(pre) + 1);
                }
                k += 1;
            },
        }
        proof {
            assert(out.deep_view() =~= bind_slots(sv.take(j as int + 1), dv, 0));
        }
        j += 1;
    }
    proof {
        assert(sv.take(slots.len() as int) =~= sv);
    }
    out
}

} // verus!
