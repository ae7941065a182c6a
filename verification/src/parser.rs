//! The `{...}` / `?` pattern mini-language.
//!
//! A pattern is a sequence of elements: literal text (with backslash escapes
//! for the language's own delimiters), `?` wildcards with an optional
//! character-class letter, named or anonymous captures `{name:...}` / `{...}`,
//! and anonymous alternations `{a|b|...}`.  Compilation yields the source of
//! a capturing regular expression together with the list of capture slots, in
//! left-to-right order of the opening groups.

use vstd::prelude::*;
use crate::strutil::chars_string;

verus! {

/// Characters that end a literal run: the language's own delimiters.
pub open spec fn is_special(c: char) -> bool {
    c == '\\' || c == '{' || c == '}' || c == ':' || c == '?' || c == '|'
}

/// Characters that may follow a backslash inside literal text.
pub open spec fn is_escapable(c: char) -> bool {
    c == '{' || c == '}' || c == ':' || c == '\\' || c == '?' || c == '|'
}

/// Regular-expression metacharacters that literal text must escape.
pub open spec fn is_meta(c: char) -> bool {
    c == '(' || c == ')' || c == '[' || c == ']' || c == '.' || c == '+' || c == '*'
}

/// Length of the literal run at the head of `s`: ordinary characters and
/// backslash escapes; `None` when a backslash is followed by nothing or by a
/// character that cannot be escaped.
pub open spec fn text_run(s: Seq<char>) -> Option<nat>
    decreases s.len(),
{
    if s.len() == 0 {
        Some(0nat)
    } else if s[0] == '\\' {
        if s.len() >= 2 && is_escapable(s[1]) {
            match text_run(s.skip(2)) {
                Some(j) => Some((j + 2) as nat),
                None => None,
            }
        } else {
            None
        }
    } else if is_special(s[0]) {
        Some(0nat)
    } else {
        match text_run(s.skip(1)) {
            Some(j) => Some((j + 1) as nat),
            None => None,
        }
    }
}

/// Length of the variable-name run at the head of `s`: alphanumeric
/// characters and underscores.
pub open spec fn word_run(s: Seq<char>) -> nat
    decreases s.len(),
{
    if s.len() == 0 {
        0nat
    } else if crate::strutil::alnum_char(s[0]) || s[0] == '_' {
        (1 + word_run(s.skip(1))) as nat
    } else {
        0nat
    }
}

/// Length of the run of spaces and tabs at the head of `s`.
pub open spec fn space_run(s: Seq<char>) -> nat
    decreases s.len(),
{
    if s.len() == 0 {
        0nat
    } else if s[0] == ' ' || s[0] == '\t' {
        (1 + space_run(s.skip(1))) as nat
    } else {
        0nat
    }
}

/// Literal text as it is emitted into the regular expression: every
/// metacharacter gets a backslash in front of it.
pub open spec fn escape_meta(s: Seq<char>) -> Seq<char>
    decreases s.len(),
{
    if s.len() == 0 {
        Seq::empty()
    } else {
        (if is_meta(s[0]) {
            seq!['\\', s[0]]
        } else {
            seq![s[0]]
        }) + escape_meta(s.drop_first())
    }
}

pub proof fn lemma_escape_meta_concat(a: Seq<char>, b: Seq<char>)
    ensures
        escape_meta(a + b) == escape_meta(a) + escape_meta(b),
    decreases a.len(),
{
    if a.len() == 0 {
        assert(a + b =~= b);
        assert(escape_meta(a) + escape_meta(b) =~= escape_meta(b));
    } else {
        lemma_escape_meta_concat(a.drop_first(), b);
        assert((a + b).drop_first() =~= a.drop_first() + b);
        let head = if is_meta(a[0]) {
            seq!['\\', a[0]]
        } else {
            seq![a[0]]
        };
        assert(escape_meta(a) + escape_meta(b) =~= head + (escape_meta(a.drop_first())
            + escape_meta(b)));
    }
}

/// A literal element: the consumed length and the escaped regex fragment;
/// fails on an empty run and on a bad escape.
pub open spec fn p_text(s: Seq<char>) -> Option<(nat, Seq<char>)> {
    match text_run(s) {
        None => None,
        Some(j) => if j == 0 {
            None
        } else {
            Some((j, escape_meta(s.take(j as int))))
        },
    }
}

/// A wildcard element: `?` plus an optional class letter; bare `?` becomes
/// the lazy fragment `.+?`, a class letter `c` becomes `\c+?`.
pub open spec fn p_wildcard(s: Seq<char>) -> Option<(nat, Seq<char>)> {
    if s.len() >= 1 && s[0] == '?' {
        if s.len() >= 2 && (s[1] == 'w' || s[1] == 'W' || s[1] == 'd' || s[1] == 'D') {
            Some((2nat, seq!['\\', s[1], '+', '?']))
        } else {
            Some((1nat, seq!['.', '+', '?']))
        }
    } else {
        None
    }
}

/// The optional `name:` prefix inside a capture, with the name trimmed of
/// surrounding spaces: yields the consumed length and the name, if one was
/// given before the colon.
pub open spec fn name_prefix(s: Seq<char>) -> (nat, Option<Seq<char>>) {
    let sp1 = space_run(s);
    let w = word_run(s.skip(sp1 as int));
    let sp2 = space_run(s.skip(sp1 + w as int));
    if w > 0 && sp1 + w + sp2 < s.len() && s[sp1 + w + sp2 as int] == ':' {
        ((sp1 + w + sp2 + 1) as nat, Some(s.subrange(sp1 as int, sp1 + w as int)))
    } else if s.len() > 0 && s[0] == ':' {
        (1nat, None)
    } else {
        (0nat, None)
    }
}

/// A capture element `{name:...}` / `{:...}` / `{...}`: one capturing group
/// whose own slot comes first, followed by the slots of nested captures.
pub open spec fn p_capture(s: Seq<char>) -> Option<(nat, Seq<Option<Seq<char>>>, Seq<char>)>
    decreases s.len(), 0int,
{
    if s.len() == 0 || s[0] != '{' {
        None
    } else {
        let (p, slot0) = name_prefix(s.skip(1));
        let p1: int = if p + 1 <= s.len() {
            p as int
        } else {
            0
        };
        match p_any(s.skip(1 + p1)) {
            None => None,
            Some((n, sl, rx)) => {
                let end: int = 1 + p1 + n as int;
                if end < s.len() && s[end] == '}' {
                    Some(
                        (
                            (end + 1) as nat,
                            seq![slot0] + sl,
                            seq!['('] + rx + seq![')'],
                        ),
                    )
                } else {
                    None
                }
            },
        }
    }
}

/// An alternation element `{a|b|...}`: one anonymous capturing group around
/// the `|`-joined alternatives, followed by the slots of nested captures.
pub open spec fn p_capture_or(s: Seq<char>) -> Option<(nat, Seq<Option<Seq<char>>>, Seq<char>)>
    decreases s.len(), 0int,
{
    if s.len() == 0 || s[0] != '{' {
        None
    } else {
        match p_alts(s.skip(1)) {
            None => None,
            Some((m, sl, rx)) => {
                let end: int = 1 + m as int;
                if end < s.len() && s[end] == '}' {
                    Some(
                        (
                            (end + 1) as nat,
                            seq![Option::<Seq<char>>::None] + sl,
                            seq!['('] + rx + seq![')'],
                        ),
                    )
                } else {
                    None
                }
            },
        }
    }
}

/// One element: a wildcard, an alternation, a capture or literal text, tried
/// in that order.
pub open spec fn p_element(s: Seq<char>) -> Option<(nat, Seq<Option<Seq<char>>>, Seq<char>)>
    decreases s.len(), 1int,
{
    match p_wildcard(s) {
        Some((n, rx)) => Some((n, Seq::empty(), rx)),
        None => match p_capture_or(s) {
            Some(r) => Some(r),
            None => match p_capture(s) {
                Some(r) => Some(r),
                None => match p_text(s) {
                    Some((n, rx)) => Some((n, Seq::empty(), rx)),
                    None => None,
                },
            },
        },
    }
}

/// One or more elements in sequence: slots and regex fragments concatenate.
/// The longest parsable prefix is compiled; what follows it is left to the
/// caller.
pub open spec fn p_any(s: Seq<char>) -> Option<(nat, Seq<Option<Seq<char>>>, Seq<char>)>
    decreases s.len(), 2int,
{
    if s.len() == 0 {
        None
    } else {
        match p_element(s) {
            None => None,
            Some((n, sl, rx)) => {
                let n1: int = if 1 <= n <= s.len() {
                    n as int
                } else {
                    1
                };
                match p_any(s.skip(n1)) {
                    None => Some((n1 as nat, sl, rx)),
                    Some((n2, sl2, rx2)) => Some(((n1 + n2) as nat, sl + sl2, rx + rx2)),
                }
            },
        }
    }
}

/// The alternatives of an alternation: element sequences separated by `|`.
pub open spec fn p_alts(s: Seq<char>) -> Option<(nat, Seq<Option<Seq<char>>>, Seq<char>)>
    decreases s.len(), 3int,
{
    if s.len() == 0 {
        None
    } else {
        match p_any(s) {
            None => None,
            Some((n, sl, rx)) => {
                let n1: int = if 1 <= n <= s.len() {
                    n as int
                } else {
                    1
                };
                if n1 < s.len() && s[n1] == '|' {
                    match p_alts(s.skip(n1 + 1)) {
                        None => Some((n1 as nat, sl, rx)),
                        Some((n2, sl2, rx2)) => Some(
                            ((n1 + 1 + n2) as nat, sl + sl2, rx + seq!['|'] + rx2),
                        ),
                    }
                } else {
                    Some((n1 as nat, sl, rx))
                }
            },
        }
    }
}

/// Compiling a whole pattern: the element sequence must cover the entire
/// input, else the pattern is malformed.
pub open spec fn pattern_compile(s: Seq<char>) -> Option<(Seq<Option<Seq<char>>>, Seq<char>)> {
    match p_any(s) {
        None => None,
        Some((n, sl, rx)) => if n == s.len() {
            Some((sl, rx))
        } else {
            None
        },
    }
}

proof fn lemma_skip_skip(s: Seq<char>, a: int, b: int)
    requires
        0 <= a,
        0 <= b,
        a + b <= s.len(),
    ensures
        s.skip(a).skip(b) == s.skip(a + b),
{
    assert(s.skip(a).skip(b) =~= s.skip(a + b));
}

fn is_special_c(c: char) -> (r: bool)
    ensures
        r == is_special(c),
{
    c == '\\' || c == '{' || c == '}' || c == ':' || c == '?' || c == '|'
}

fn is_escapable_c(c: char) -> (r: bool)
    ensures
        r == is_escapable(c),
{
    c == '{' || c == '}' || c == ':' || c == '\\' || c == '?' || c == '|'
}

fn is_meta_c(c: char) -> (r: bool)
    ensures
        r == is_meta(c),
{
    c == '(' || c == ')' || c == '[' || c == ']' || c == '.' || c == '+' || c == '*'
}

/// End of the literal run that starts at `pos`, or `None` on a bad escape.
fn scan_text(s: &Vec<char>, pos: usize) -> (r: Option<usize>)
    requires
        pos <= s@.len(),
    ensures
        match r {
            Some(end) => pos <= end <= s@.len() && text_run(s@.skip(pos as int)) == Some(
                (end - pos) as nat,
            ),
            None => text_run(s@.skip(pos as int)) is None,
        },
{
    let mut i: usize = pos;
    loop
        invariant
            pos <= i <= s@.len(),
            match text_run(s@.skip(i as int)) {
                Some(j) => text_run(s@.skip(pos as int)) == Some((i - pos + j) as nat),
                None => text_run(s@.skip(pos as int)) is None,
            },
        decreases s@.len() - i,
    {
        if i == s.len() {
            proof {
                assert(s@.skip(i as int) =~= Seq::<char>::empty());
            }
            return Some(i);
        }
        let c = s[i];
        proof {
            assert(s@.skip(i as int)[0] == s@[i as int]);
        }
        if c == '\\' {
            if i + 1 < s.len() && is_escapable_c(s[i + 1]) {
                proof {
                    assert(s@.skip(i as int)[1] == s@[i as int + 1]);
                    lemma_skip_skip(s@, i as int, 2);
                }
                i = i + 2;
            } else {
                proof {
                    if i + 1 < s.len() {
                        assert(s@.skip(i as int)[1] == s@[i as int + 1]);
                    }
                }
                return None;
            }
        } else if is_special_c(c) {
            return Some(i);
        } else {
            proof {
                lemma_skip_skip(s@, i as int, 1);
            }
            i = i + 1;
        }
    }
}

/// End of the alphanumeric-or-underscore run that starts at `pos`.
pub(crate) fn scan_word(s: &Vec<char>, pos: usize) -> (end: usize)
    requires
        pos <= s@.len(),
    ensures
        pos <= end <= s@.len(),
        word_run(s@.skip(pos as int)) == (end - pos) as nat,
{
    let mut i: usize = pos;
    loop
        invariant
            pos <= i <= s@.len(),
            word_run(s@.skip(pos as int)) == (i - pos) as nat + word_run(s@.skip(i as int)),
        decreases s@.len() - i,
    {
        if i == s.len() {
            proof {
                assert(s@.skip(i as int) =~= Seq::<char>::empty());
            }
            return i;
        }
        let c = s[i];
        proof {
            assert(s@.skip(i as int)[0] == s@[i as int]);
            lemma_skip_skip(s@, i as int, 1);
        }
        if crate::strutil::is_alnum_char(c) || c == '_' {
            i = i + 1;
        } else {
            return i;
        }
    }
}

/// End of the space-and-tab run that starts at `pos`.
fn scan_space(s: &Vec<char>, pos: usize) -> (end: usize)
    requires
        pos <= s@.len(),
    ensures
        pos <= end <= s@.len(),
        space_run(s@.skip(pos as int)) == (end - pos) as nat,
{
    let mut i: usize = pos;
    loop
        invariant
            pos <= i <= s@.len(),
            space_run(s@.skip(pos as int)) == (i - pos) as nat + space_run(s@.skip(i as int)),
        decreases s@.len() - i,
    {
        if i == s.len() {
            proof {
                assert(s@.skip(i as int) =~= Seq::<char>::empty());
            }
            return i;
        }
        let c = s[i];
        proof {
            assert(s@.skip(i as int)[0] == s@[i as int]);
            lemma_skip_skip(s@, i as int, 1);
        }
        if c == ' ' || c == '\t' {
            i = i + 1;
        } else {
            return i;
        }
    }
}

/// The characters `s[from..to]` as a freshly built string.
pub(crate) fn range_string(s: &Vec<char>, from: usize, to: usize) -> (r: String)
    requires
        from <= to <= s@.len(),
    ensures
        r@ == s@.subrange(from as int, to as int),
{
    let mut v: Vec<char> = Vec::new();
    let mut i: usize = from;
    while i < to
        invariant
            from <= i <= to <= s@.len(),
            v@ == s@.subrange(from as int, i as int),
        decreases to - i,
    {
        v.push(s[i]);
        proof {
            assert(s@.subrange(from as int, i as int + 1) =~= s@.subrange(from as int, i as int)
                + seq![s@[i as int]]);
            assert(v@ =~= s@.subrange(from as int, i as int + 1));
        }
        i += 1;
    }
    proof {
        assert(v@ =~= s@.subrange(from as int, to as int));
    }
    chars_string(&v)
}

/// The characters `s[from..to]`, with regex metacharacters escaped.
fn escape_range(s: &Vec<char>, from: usize, to: usize) -> (r: String)
    requires
        from <= to <= s@.len(),
    ensures
        r@ == escape_meta(s@.subrange(from as int, to as int)),
{
    let mut v: Vec<char> = Vec::new();
    let mut i: usize = from;
    proof {
        assert(s@.subrange(from as int, from as int) =~= Seq::<char>::empty());
        assert(escape_meta(Seq::<char>::empty()) =~= Seq::<char>::empty());
        assert(v@ =~= Seq::<char>::empty());
    }
    while i < to
        invariant
            from <= i <= to <= s@.len(),
            v@ == escape_meta(s@.subrange(from as int, i as int)),
        decreases to - i,
    {
        let c = s[i];
        if is_meta_c(c) {
            v.push('\\');
        }
        v.push(c);
        proof {
            let pre = s@.subrange(from as int, i as int);
            let one = seq![s@[i as int]];
            assert(s@.subrange(from as int, i as int + 1) =~= pre + one);
            lemma_escape_meta_concat(pre, one);
            assert(one.drop_first() =~= Seq::<char>::empty());
            assert(escape_meta(Seq::<char>::empty()) =~= Seq::<char>::empty());
            if is_meta(s@[i as int]) {
                assert(escape_meta(one) =~= seq!['\\', s@[i as int]]);
            } else {
                assert(escape_meta(one) =~= one);
            }
            assert(v@ =~= escape_meta(s@.subrange(from as int, i as int + 1)));
        }
        i += 1;
    }
    chars_string(&v)
}

/// A literal text element starting at `pos`: the end of the run and the
/// escaped regex fragment.
pub fn text(s: &Vec<char>, pos: usize) -> (r: Option<(usize, String)>)
    requires
        pos <= s@.len(),
    ensures
        match r {
            Some((end, out)) => pos < end <= s@.len() && p_text(s@.skip(pos as int)) == Some(
                (((end - pos) as nat), out@),
            ),
            None => p_text(s@.skip(pos as int)) is None,
        },
{
    match scan_text(s, pos) {
        None => None,
        Some(end) => {
            if end == pos {
                None
            } else {
                proof {
                    assert(s@.skip(pos as int).take((end - pos) as int) =~= s@.subrange(
                        pos as int,
                        end as int,
                    ));
                }
                let out = escape_range(s, pos, end);
                Some((end, out))
            }
        },
    }
}

/// A variable name starting at `pos`: its end and its text.
pub fn varname(s: &Vec<char>, pos: usize) -> (r: Option<(usize, String)>)
    requires
        pos <= s@.len(),
    ensures
        match r {
            Some((end, name)) => pos < end <= s@.len() && word_run(s@.skip(pos as int)) == (end
                - pos) as nat && name@ == s@.subrange(pos as int, end as int),
            None => word_run(s@.skip(pos as int)) == 0,
        },
{
    let end = scan_word(s, pos);
    if end > pos {
        Some((end, range_string(s, pos, end)))
    } else {
        None
    }
}

/// A wildcard element starting at `pos`: its end and its regex fragment.
pub fn wildcard(s: &Vec<char>, pos: usize) -> (r: Option<(usize, String)>)
    requires
        pos <= s@.len(),
    ensures
        match r {
            Some((end, rx)) => pos < end <= s@.len() && p_wildcard(s@.skip(pos as int)) == Some(
                (((end - pos) as nat), rx@),
            ),
            None => p_wildcard(s@.skip(pos as int)) is None,
        },
{
    if pos < s.len() && s[pos] == '?' {
        proof {
            assert(s@.skip(pos as int)[0] == s@[pos as int]);
        }
        if pos + 1 < s.len() {
            let d = s[pos + 1];
            proof {
                assert(s@.skip(pos as int)[1] == s@[pos as int + 1]);
            }
            if d == 'w' || d == 'W' || d == 'd' || d == 'D' {
                let mut v: Vec<char> = Vec::new();
                v.push('\\');
                v.push(d);
                v.push('+');
                v.push('?');
                proof {
                    assert(v@ =~= seq!['\\', d, '+', '?']);
                }
                return Some((pos + 2, chars_string(&v)));
            }
        }
        let mut v: Vec<char> = Vec::new();
        v.push('.');
        v.push('+');
        v.push('?');
        proof {
            assert(v@ =~= seq!['.', '+', '?']);
        }
        Some((pos + 1, chars_string(&v)))
    } else {
        None
    }
}

/// One element starting at `pos`: wildcard, alternation, capture or literal,
/// tried in that order.
pub fn element(s: &Vec<char>, pos: usize) -> (r: Option<(usize, Vec<Option<String>>, String)>)
    requires
        pos <= s@.len(),
    ensures
        match r {
            Some((end, slots, rx)) => pos < end <= s@.len() && p_element(s@.skip(pos as int))
                == Some((((end - pos) as nat), slots.deep_view(), rx@)),
            None => p_element(s@.skip(pos as int)) is None,
        },
    decreases s@.len() - pos, 1int,
{
    match wildcard(s, pos) {
        Some((end, rx)) => {
            let slots: Vec<Option<String>> = Vec::new();
            proof {
                assert(slots.deep_view() =~= Seq::<Option<Seq<char>>>::empty());
            }
            return Some((end, slots, rx));
        },
        None => {},
    }
    match capture_or(s, pos) {
        Some(r) => {
            return Some(r);
        },
        None => {},
    }
    match capture(s, pos) {
        Some(r) => {
            return Some(r);
        },
        None => {},
    }
    match text(s, pos) {
        Some((end, rx)) => {
            let slots: Vec<Option<String>> = Vec::new();
            proof {
                assert(slots.deep_view() =~= Seq::<Option<Seq<char>>>::empty());
            }
            Some((end, slots, rx))
        },
        None => None,
    }
}

/// One or more elements starting at `pos`: the longest parsable run.
pub fn any(s: &Vec<char>, pos: usize) -> (r: Option<(usize, Vec<Option<String>>, String)>)
    requires
        pos <= s@.len(),
    ensures
        match r {
            Some((end, slots, rx)) => pos < end <= s@.len() && p_any(s@.skip(pos as int)) == Some(
                (((end - pos) as nat), slots.deep_view(), rx@),
            ),
            None => p_any(s@.skip(pos as int)) is None,
        },
    decreases s@.len() - pos, 2int,
{
    match element(s, pos) {
        None => None,
        Some((end1, slots, rx)) => {
            proof {
                lemma_skip_skip(s@, pos as int, (end1 - pos) as int);
            }
            match any(s, end1) {
                None => Some((end1, slots, rx)),
                Some((end2, slots2, rx2)) => {
                    let ghost sl1 = slots.deep_view();
                    let ghost sl2 = slots2.deep_view();
                    let mut slots = slots;
                    let mut slots2 = slots2;
                    slots.append(&mut slots2);
                    let mut acc = rx;
                    acc.append(rx2.as_str());
                    proof {
                        assert(slots.deep_view() =~= sl1 + sl2);
                    }
                    Some((end2, slots, acc))
                },
            }
        },
    }
}

/// `|`-separated alternatives starting at `pos`.
fn alts(s: &Vec<char>, pos: usize) -> (r: Option<(usize, Vec<Option<String>>, String)>)
    requires
        pos <= s@.len(),
    ensures
        match r {
            Some((end, slots, rx)) => pos < end <= s@.len() && p_alts(s@.skip(pos as int)) == Some(
                (((end - pos) as nat), slots.deep_view(), rx@),
            ),
            None => p_alts(s@.skip(pos as int)) is None,
        },
    decreases s@.len() - pos, 3int,
{
    match any(s, pos) {
        None => None,
        Some((aend, slots, rx)) => {
            proof {
                assert(aend < s@.len() ==> s@.skip(pos as int)[(aend - pos) as int] == s@[
                    aend as int
                ]);
            }
            if aend < s.len() && s[aend] == '|' {
                proof {
                    lemma_skip_skip(s@, pos as int, (aend + 1 - pos) as int);
                }
                match alts(s, aend + 1) {
                    None => Some((aend, slots, rx)),
                    Some((end2, slots2, rx2)) => {
                        let ghost sl1 = slots.deep_view();
                        let ghost sl2 = slots2.deep_view();
                        let mut slots = slots;
                        let mut slots2 = slots2;
                        slots.append(&mut slots2);
                        let mut acc = rx;
                        crate::strutil::push_char(&mut acc, '|');
                        acc.append(rx2.as_str());
                        proof {
                            assert(slots.deep_view() =~= sl1 + sl2);
                            assert(acc@ =~= rx@ + seq!['|'] + rx2@);
                        }
                        Some((end2, slots, acc))
                    },
                }
            } else {
                Some((aend, slots, rx))
            }
        },
    }
}

/// An alternation element `{a|b|...}` starting at `pos`.
pub fn capture_or(s: &Vec<char>, pos: usize) -> (r: Option<(usize, Vec<Option<String>>, String)>)
    requires
        pos <= s@.len(),
    ensures
        match r {
            Some((end, slots, rx)) => pos < end <= s@.len() && p_capture_or(s@.skip(pos as int))
                == Some((((end - pos) as nat), slots.deep_view(), rx@)),
            None => p_capture_or(s@.skip(pos as int)) is None,
        },
    decreases s@.len() - pos, 0int,
{
    if pos >= s.len() || s[pos] != '{' {
        proof {
            if pos < s@.len() {
                assert(s@.skip(pos as int)[0] == s@[pos as int]);
            }
        }
        return None;
    }
    proof {
        assert(s@.skip(pos as int)[0] == s@[pos as int]);
        lemma_skip_skip(s@, pos as int, 1);
    }
    match alts(s, pos + 1) {
        None => None,
        Some((mend, slots, rx)) => {
            proof {
                assert(mend < s@.len() ==> s@.skip(pos as int)[(mend - pos) as int] == s@[mend as int]);
            }
            if mend < s.len() && s[mend] == '}' {
                let ghost sl = slots.deep_view();
                let mut slots = slots;
                slots.insert(0, None);
                let mut acc = String::new();
                crate::strutil::push_char(&mut acc, '(');
                acc.append(rx.as_str());
                crate::strutil::push_char(&mut acc, ')');
                proof {
                    assert(slots.deep_view() =~= seq![Option::<Seq<char>>::None] + sl);
                    assert(acc@ =~= seq!['('] + rx@ + seq![')']);
                }
                Some((mend + 1, slots, acc))
            } else {
                None
            }
        },
    }
}

/// A capture element `{name:...}` / `{:...}` / `{...}` starting at `pos`.
#[verifier::rlimit(100)]
pub fn capture(s: &Vec<char>, pos: usize) -> (r: Option<(usize, Vec<Option<String>>, String)>)
    requires
        pos <= s@.len(),
    ensures
        match r {
            Some((end, slots, rx)) => pos < end <= s@.len() && p_capture(s@.skip(pos as int))
                == Some((((end - pos) as nat), slots.deep_view(), rx@)),
            None => p_capture(s@.skip(pos as int)) is None,
        },
    decreases s@.len() - pos, 0int,
{
    if pos >= s.len() || s[pos] != '{' {
        proof {
            if pos < s@.len() {
                assert(s@.skip(pos as int)[0] == s@[pos as int]);
            }
        }
        return None;
    }
    let rest0 = pos + 1;
    proof {
        assert(s@.skip(pos as int)[0] == s@[pos as int]);
        lemma_skip_skip(s@, pos as int, 1);
    }
    let ghost rest = s@.skip(rest0 as int);
    let sp1e = scan_space(s, rest0);
    proof {
        lemma_skip_skip(s@, rest0 as int, (sp1e - rest0) as int);
    }
    let we = scan_word(s, sp1e);
    proof {
        lemma_skip_skip(s@, rest0 as int, (we - rest0) as int);
    }
    let sp2e = scan_space(s, we);
    let ghost np = name_prefix(rest);
    let (pfx_end, slot0): (usize, Option<String>) = if we > sp1e && sp2e < s.len() && s[sp2e]
        == ':' {
        proof {
            assert(rest[(sp2e - rest0) as int] == s@[sp2e as int]);
            assert(rest.subrange((sp1e - rest0) as int, (we - rest0) as int) =~= s@.subrange(
                sp1e as int,
                we as int,
            ));
        }
        (sp2e + 1, Some(range_string(s, sp1e, we)))
    } else {
        proof {
            if rest0 < s@.len() {
                assert(rest[0] == s@[rest0 as int]);
            }
            if sp2e < s@.len() {
                assert(rest[(sp2e - rest0) as int] == s@[sp2e as int]);
            }
        }
        if rest0 < s.len() && s[rest0] == ':' {
            (rest0 + 1, None)
        } else {
            (rest0, None)
        }
    };
    proof {
        assert(np.0 == (pfx_end - rest0) as nat);
        assert(np.1 == slot0.deep_view());
        lemma_skip_skip(s@, pos as int, (pfx_end - pos) as int);
    }
    match any(s, pfx_end) {
        None => None,
        Some((aend, slots, rx)) => {
            proof {
                assert(aend < s@.len() ==> s@.skip(pos as int)[(aend - pos) as int] == s@[aend as int]);
            }
            if aend < s.len() && s[aend] == '}' {
                let ghost sl = slots.deep_view();
                let mut slots = slots;
                slots.insert(0, slot0);
                let mut acc = String::new();
                crate::strutil::push_char(&mut acc, '(');
                acc.append(rx.as_str());
                crate::strutil::push_char(&mut acc, ')');
                proof {
                    assert(slots.deep_view() =~= seq![np.1] + sl);
                    assert(acc@ =~= seq!['('] + rx@ + seq![')']);
                }
                Some((aend + 1, slots, acc))
            } else {
                None
            }
        },
    }
}

/// The leading blank run is exactly `j` when the first `j` characters are
/// blanks and the next one, if any, is not.
pub proof fn lemma_space_run_exact(s: Seq<char>, j: int)
    requires
        0 <= j <= s.len(),
        forall|k: int| 0 <= k < j ==> #[trigger] s[k] == ' ' || s[k] == '\t',
        j == s.len() || !(s[j] == ' ' || s[j] == '\t'),
    ensures
        space_run(s) == j,
    decreases j,
{
    if j > 0 {
        assert(forall|k: int| 0 <= k < s.skip(1).len() ==> #[trigger] s.skip(1)[k] == s[k + 1]);
        lemma_space_run_exact(s.skip(1), j - 1);
    }
}

} // verus!
