use vstd::prelude::*;

use crate::model::{params_view, DirectiveView, ErrorKind, InfoView, TemplateDirective, TemplateError, TemplateInfo};
use crate::text::{equals_str, owned, string_from};

verus! {

pub open spec fn is_space(c: char) -> bool {
    c == ' ' || c == '\t'
}

pub open spec fn is_alnum(c: char) -> bool {
    ('a' <= c && c <= 'z') || ('A' <= c && c <= 'Z') || ('0' <= c && c <= '9')
}

/// The first index at or after `i` that does not hold a space or a tab.
pub open spec fn skip_space(s: Seq<char>, i: int) -> int
    decreases s.len() - i,
{
    if 0 <= i < s.len() && is_space(s[i]) {
        skip_space(s, i + 1)
    } else {
        i
    }
}

/// The first index at or after `i` that does not hold an ASCII letter or digit.
pub open spec fn skip_alnum(s: Seq<char>, i: int) -> int
    decreases s.len() - i,
{
    if 0 <= i < s.len() && is_alnum(s[i]) {
        skip_alnum(s, i + 1)
    } else {
        i
    }
}

/// The value of a quoted string whose content starts at `i`, with `\\` and
/// `\"` resolved, and the index of its closing quote.
pub open spec fn value_from(s: Seq<char>, i: int) -> Option<(Seq<char>, int)>
    decreases s.len() - i,
{
    if i < 0 || i >= s.len() {
        None
    } else if s[i] == '"' {
        Some((Seq::empty(), i))
    } else if s[i] == '\\' {
        if i + 1 < s.len() && (s[i + 1] == '\\' || s[i + 1] == '"') {
            match value_from(s, i + 2) {
                Some((v, k)) => Some((seq![s[i + 1]] + v, k)),
                None => None,
            }
        } else {
            None
        }
    } else {
        match value_from(s, i + 1) {
            Some((v, k)) => Some((seq![s[i]] + v, k)),
            None => None,
        }
    }
}

/// One parameter `key="value"` with the spaces around it, read from `i`: the
/// key, the value and the index after it.
pub open spec fn param_at(s: Seq<char>, i: int) -> Option<((Seq<char>, Seq<char>), int)> {
    let a = skip_space(s, i);
    let b = skip_alnum(s, a);
    let c = skip_space(s, b);
    let d = skip_space(s, c + 1);
    if b == a || !(c < s.len() && s[c] == '=') || !(d < s.len() && s[d] == '"') {
        None
    } else {
        match value_from(s, d + 1) {
            Some((v, e)) => Some(((s.subrange(a, b), v), skip_space(s, e + 1))),
            None => None,
        }
    }
}

/// The parameters that make up `s` from `i` to its end, if it is made of them.
pub open spec fn params_from(s: Seq<char>, i: int) -> Option<Seq<(Seq<char>, Seq<char>)>>
    decreases s.len() - i,
{
    if i >= s.len() {
        Some(Seq::empty())
    } else {
        match param_at(s, i) {
            Some((p, j)) => if i < j <= s.len() {
                match params_from(s, j) {
                    Some(ps) => Some(seq![p] + ps),
                    None => None,
                }
            } else {
                None
            },
            None => None,
        }
    }
}

/// The directive that the content of a directive block reads as: optional
/// spaces, an alphanumeric name, then parameters up to the end.
pub open spec fn directive_of(s: Seq<char>) -> Option<DirectiveView> {
    let a = skip_space(s, 0);
    let b = skip_alnum(s, a);
    if b == a {
        None
    } else {
        match params_from(s, b) {
            Some(ps) => Some(DirectiveView { name: s.subrange(a, b), params: ps }),
            None => None,
        }
    }
}

pub(crate) proof fn lemma_skip_space_bounds(s: Seq<char>, i: int)
    requires
        0 <= i <= s.len(),
    ensures
        i <= skip_space(s, i) <= s.len(),
        skip_space(s, i) < s.len() ==> !is_space(s[skip_space(s, i)]),
    decreases s.len() - i,
{
    if i < s.len() && is_space(s[i]) {
        lemma_skip_space_bounds(s, i + 1);
    }
}

proof fn lemma_value_bounds(s: Seq<char>, i: int)
    requires
        0 <= i,
    ensures
        value_from(s, i) matches Some((v, k)) ==> i <= k < s.len(),
    decreases s.len() - i,
{
    if 0 <= i < s.len() && s[i] != '"' {
        lemma_value_bounds(s, i + 1);
        if i + 1 < s.len() {
            lemma_value_bounds(s, i + 2);
        }
    }
}

fn skip_spaces(v: &Vec<char>, i: usize) -> (r: usize)
    requires
        i <= v@.len(),
    ensures
        r as int == skip_space(v@, i as int),
        i <= r <= v@.len(),
{
    let mut j = i;
    while j < v.len() && (v[j] == ' ' || v[j] == '\t')
        invariant
            i <= j <= v@.len(),
            skip_space(v@, i as int) == skip_space(v@, j as int),
        decreases v@.len() - j,
    {
        j = j + 1;
    }
    j
}

fn skip_alnums(v: &Vec<char>, i: usize) -> (r: usize)
    requires
        i <= v@.len(),
    ensures
        r as int == skip_alnum(v@, i as int),
        i <= r <= v@.len(),
{
    let mut j = i;
    while j < v.len() && (('a' <= v[j] && v[j] <= 'z') || ('A' <= v[j] && v[j] <= 'Z') || ('0'
        <= v[j] && v[j] <= '9'))
        invariant
            i <= j <= v@.len(),
            skip_alnum(v@, i as int) == skip_alnum(v@, j as int),
        decreases v@.len() - j,
    {
        j = j + 1;
    }
    j
}

/// Reads a quoted value whose content starts at `i`.
fn read_value(v: &Vec<char>, i: usize) -> (r: Option<(Vec<char>, usize)>)
    requires
        i <= v@.len(),
    ensures
        match value_from(v@, i as int) {
            Some((w, k)) => r matches Some((x, j)) && x@ == w && j as int == k,
            None => r is None,
        },
{
    let mut out: Vec<char> = Vec::new();
    let mut j = i;
    proof {
        lemma_value_bounds(v@, i as int);
    }
    loop
        invariant
            i <= j <= v@.len(),
            value_from(v@, i as int) == (match value_from(v@, j as int) {
                Some((w, k)) => Some((out@ + w, k)),
                None => None::<(Seq<char>, int)>,
            }),
        decreases v@.len() - j,
    {
        if j >= v.len() {
            return None;
        }
        let c = v[j];
        if c == '"' {
            assert(out@ + Seq::<char>::empty() == out@);
            return Some((out, j));
        } else if c == '\\' {
            if j + 1 < v.len() && (v[j + 1] == '\\' || v[j + 1] == '"') {
                let d = v[j + 1];
                proof {
                    match value_from(v@, j + 2) {
                        Some((w, k)) => {
                            assert(out@.push(d) + w == out@ + (seq![d] + w));
                        },
                        None => {},
                    }
                }
                out.push(d);
                j = j + 2;
            } else {
                return None;
            }
        } else {
            proof {
                match value_from(v@, j + 1) {
                    Some((w, k)) => {
                        assert(out@.push(c) + w == out@ + (seq![c] + w));
                    },
                    None => {},
                }
            }
            out.push(c);
            j = j + 1;
        }
    }
}

/// Reads one `key="value"` parameter, with the spaces around it, from `i`.
fn parse_directive_param(v: &Vec<char>, i: usize) -> (r: Option<(String, String, usize)>)
    requires
        i <= v@.len(),
    ensures
        match param_at(v@, i as int) {
            Some((p, k)) => r matches Some((key, val, j)) && key@ == p.0 && val@ == p.1 && j as int
                == k && i < j <= v@.len(),
            None => r is None,
        },
{
    let a = skip_spaces(v, i);
    let b = skip_alnums(v, a);
    if b == a {
        return None;
    }
    let c = skip_spaces(v, b);
    if !(c < v.len() && v[c] == '=') {
        return None;
    }
    let d = skip_spaces(v, c + 1);
    if !(d < v.len() && v[d] == '"') {
        return None;
    }
    match read_value(v, d + 1) {
        Some((val, e)) => {
            proof {
                lemma_value_bounds(v@, d + 1);
            }
            let j = skip_spaces(v, e + 1);
            let key = string_from(v, a, b);
            let value = string_from(&val, 0, val.len());
            assert(val@.subrange(0, val@.len() as int) == val@);
            Some((key, value, j))
        },
        None => None,
    }
}

/// Parses the content of a directive block into a directive.
pub fn parse_directive(content: &str) -> (r: Option<TemplateDirective>)
    ensures
        match directive_of(content@) {
            Some(d) => r matches Some(x) && x@ == d,
            None => r is None,
        },
{
    let v = crate::text::chars_of(content);
    let a = skip_spaces(&v, 0);
    let b = skip_alnums(&v, a);
    if b == a {
        return None;
    }
    let name = string_from(&v, a, b);
    assert(directive_of(content@) == match params_from(v@, b as int) {
        Some(ps) => Some(DirectiveView { name: name@, params: ps }),
        None => None,
    });
    let mut params: Vec<(String, String)> = Vec::new();
    let mut j = b;
    while j < v.len()
        invariant
            b <= j <= v@.len(),
            v@ == content@,
            directive_of(content@) == match params_from(v@, b as int) {
                Some(ps) => Some(DirectiveView { name: name@, params: ps }),
                None => None,
            },
            params_from(v@, b as int) == (match params_from(v@, j as int) {
                Some(ps) => Some(params_view(params@) + ps),
                None => None::<Seq<(Seq<char>, Seq<char>)>>,
            }),
        decreases v@.len() - j,
    {
        match parse_directive_param(&v, j) {
            Some((key, value, k)) => {
                let ghost old_params = params@;
                params.push((key, value));
                proof {
                    assert(params_view(params@) == params_view(old_params).push((key@, value@)));
                    match params_from(v@, k as int) {
                        Some(ps) => {
                            assert(params_view(old_params).push((key@, value@)) + ps
                                == params_view(old_params) + (seq![(key@, value@)] + ps));
                        },
                        None => {},
                    }
                }
                j = k;
            },
            None => {
                assert(params_from(v@, j as int) is None);
                return None;
            },
        }
    }
    assert(params_view(params@) + Seq::<(Seq<char>, Seq<char>)>::empty() == params_view(params@));
    Some(TemplateDirective { name, params })
}

/// The boolean that `v` spells: `true` or `false`, nothing else.
pub open spec fn bool_of(v: Seq<char>) -> Option<bool> {
    if v == "true"@ {
        Some(true)
    } else if v == "false"@ {
        Some(false)
    } else {
        None
    }
}

/// The effect of the parameter `key="value"` of directive `name` on the state.
/// Parameters without a known effect leave it as it is.
pub open spec fn apply_param(st: InfoView, name: Seq<char>, key: Seq<char>, value: Seq<char>) -> Result<
    InfoView,
    ErrorKind,
> {
    if name == "template"@ && key == "debug"@ {
        match bool_of(value) {
            Some(b) => Ok(InfoView { debug_print: b, ..st }),
            None => Err(ErrorKind::BadBool(value)),
        }
    } else if name == "template"@ && (key == "cleanws"@ || key == "clean_whitespace"@) {
        match bool_of(value) {
            Some(b) => Ok(InfoView { clean_whitespace: b, ..st }),
            None => Err(ErrorKind::BadBool(value)),
        }
    } else if name == "escape"@ && key == "function"@ {
        Ok(InfoView { print_postprocessor: value, ..st })
    } else {
        Ok(st)
    }
}

/// The parameters `ps` of directive `name` applied in order.
pub open spec fn apply_params(st: InfoView, name: Seq<char>, ps: Seq<(Seq<char>, Seq<char>)>) -> Result<
    InfoView,
    ErrorKind,
>
    decreases ps.len(),
{
    if ps.len() == 0 {
        Ok(st)
    } else {
        match apply_params(st, name, ps.drop_last()) {
            Ok(s) => apply_param(s, name, ps.last().0, ps.last().1),
            Err(e) => Err(e),
        }
    }
}

pub open spec fn apply_spec(st: InfoView, d: DirectiveView) -> Result<InfoView, ErrorKind> {
    apply_params(st, d.name, d.params)
}

proof fn lemma_error_stays(st: InfoView, name: Seq<char>, ps: Seq<(Seq<char>, Seq<char>)>, j: int)
    requires
        0 <= j <= ps.len(),
        apply_params(st, name, ps.take(j)) is Err,
    ensures
        apply_params(st, name, ps) == apply_params(st, name, ps.take(j)),
    decreases ps.len(),
{
    if j == ps.len() {
        assert(ps.take(j) == ps);
    } else {
        assert(ps.drop_last().take(j) == ps.take(j));
        lemma_error_stays(st, name, ps.drop_last(), j);
    }
}

fn parse_bool(value: &String) -> (r: Result<bool, TemplateError>)
    ensures
        match bool_of(value@) {
            Some(b) => r == Ok::<bool, TemplateError>(b),
            None => r matches Err(e) && e.kind@ == ErrorKind::BadBool(value@),
        },
{
    if equals_str(value.as_str(), "true") {
        Ok(true)
    } else if equals_str(value.as_str(), "false") {
        Ok(false)
    } else {
        let mut reason = owned("Could not read a boolean from the directive parameter: ");
        reason.append(value.as_str());
        Err(TemplateError { reason, index: 0, kind: Ghost(ErrorKind::BadBool(value@)) })
    }
}

/// Applies the parameters of a directive to the state, in order.
pub fn apply_directive(info: &mut TemplateInfo, directive: &TemplateDirective) -> (r: Result<
    (),
    TemplateError,
>)
    ensures
        match apply_spec(old(info)@, directive@) {
            Ok(s) => r is Ok && final(info)@ == s,
            Err(k) => r matches Err(e) && e.kind@ == k,
        },
{
    let ghost start = info@;
    let name = directive.name.as_str();
    let is_template = equals_str(name, "template");
    let is_escape = equals_str(name, "escape");
    let mut i: usize = 0;
    while i < directive.params.len()
        invariant
            i <= directive.params@.len(),
            start == old(info)@,
            is_template == (directive.name@ == "template"@),
            is_escape == (directive.name@ == "escape"@),
            apply_params(start, directive.name@, params_view(directive.params@).take(i as int))
                == Ok::<InfoView, ErrorKind>(info@),
        decreases directive.params@.len() - i,
    {
        let key = directive.params[i].0.as_str();
        let value = &directive.params[i].1;
        let ghost before = info@;
        let ghost ps = params_view(directive.params@).take(i + 1);
        assert(ps.drop_last() == params_view(directive.params@).take(i as int));
        assert(ps.last() == (key@, value@));
        let set_debug = is_template && equals_str(key, "debug");
        let set_clean = is_template && (equals_str(key, "cleanws") || equals_str(key,
            "clean_whitespace"));
        if set_debug || set_clean {
            match parse_bool(value) {
                Ok(b) => {
                    if set_debug {
                        info.debug_print = b;
                    } else {
                        info.clean_whitespace = b;
                    }
                },
                Err(e) => {
                    assert(apply_params(start, directive.name@, ps) is Err);
                    proof {
                        lemma_error_stays(start, directive.name@, params_view(directive.params@), i + 1);
                    }
                    return Err(e);
                },
            }
        } else if is_escape && equals_str(key, "function") {
            info.print_postprocessor = value.clone();
        }
        i = i + 1;
    }
    assert(params_view(directive.params@).take(i as int) == params_view(directive.params@));
    Ok(())
}

/// Whether the parameter `key` of directive `name` has an effect.
pub open spec fn is_known_param(name: Seq<char>, key: Seq<char>) -> bool {
    (name == "template"@ && (key == "debug"@ || key == "cleanws"@ || key == "clean_whitespace"@))
        || (name == "escape"@ && key == "function"@)
}

/// The keys among `ps` that have no effect under directive `name`, in order.
pub open spec fn unknown_keys(name: Seq<char>, ps: Seq<(Seq<char>, Seq<char>)>) -> Seq<Seq<char>>
    decreases ps.len(),
{
    if ps.len() == 0 {
        Seq::empty()
    } else {
        let r = unknown_keys(name, ps.drop_last());
        if is_known_param(name, ps.last().0) {
            r
        } else {
            r.push(ps.last().0)
        }
    }
}

pub open spec fn strings_view(v: Seq<String>) -> Seq<Seq<char>> {
    v.map_values(|s: String| s@)
}

/// The keys of a directive's parameters that have no known effect, in
/// order; applying the directive ignores them.
pub fn unrecognized_params(directive: &TemplateDirective) -> (r: Vec<String>)
    ensures
        strings_view(r@) == unknown_keys(directive@.name, directive@.params),
{
    let name = directive.name.as_str();
    let is_template = equals_str(name, "template");
    let is_escape = equals_str(name, "escape");
    let mut out: Vec<String> = Vec::new();
    let mut i: usize = 0;
    while i < directive.params.len()
        invariant
            i <= directive.params@.len(),
            is_template == (directive.name@ == "template"@),
            is_escape == (directive.name@ == "escape"@),
            strings_view(out@) == unknown_keys(directive.name@, params_view(directive.params@).take(i as int)),
        decreases directive.params@.len() - i,
    {
        let key = &directive.params[i].0;
        let ghost ps = params_view(directive.params@).take(i + 1);
        assert(ps.drop_last() == params_view(directive.params@).take(i as int));
        assert(ps.last().0 == key@);
        let known = (is_template && (equals_str(key.as_str(), "debug") || equals_str(key.as_str(), "cleanws")
            || equals_str(key.as_str(), "clean_whitespace"))) || (is_escape && equals_str(key.as_str(), "function"));
        if !known {
            let ghost before = out@;
            out.push(key.clone());
            assert(strings_view(out@) == strings_view(before).push(key@));
        }
        i = i + 1;
    }
    assert(params_view(directive.params@).take(i as int) == params_view(directive.params@));
    out
}

} // verus!
