use vstd::prelude::*;

use crate::directive::{apply_directive, apply_spec, directive_of, parse_directive};
use crate::model::{parts_view, ErrorKind, InfoView, PartView, TemplateError, TemplateInfo, TemplatePart};
use crate::text::{chars_of, owned, string_from};

verus! {

/// Whether the two characters `a`, `b` stand at `i` in `s`.
pub open spec fn pair_at(s: Seq<char>, i: int, a: char, b: char) -> bool {
    0 <= i && i + 1 < s.len() && s[i] == a && s[i + 1] == b
}

/// Whether `c` stands at `i` in `s`.
pub open spec fn char_at(s: Seq<char>, i: int, c: char) -> bool {
    0 <= i < s.len() && s[i] == c
}

/// The first index at or after `i` where `<#` starts, or the length of `s`.
pub open spec fn next_open(s: Seq<char>, i: int) -> int
    decreases s.len() - i,
{
    if i < 0 || i >= s.len() {
        s.len() as int
    } else if pair_at(s, i, '<', '#') {
        i
    } else {
        next_open(s, i + 1)
    }
}

/// The first index at or after `i` where `#>` starts, or the length of `s`.
pub open spec fn next_close(s: Seq<char>, i: int) -> int
    decreases s.len() - i,
{
    if i < 0 || i >= s.len() {
        s.len() as int
    } else if pair_at(s, i, '#', '>') {
        i
    } else {
        next_close(s, i + 1)
    }
}

/// The literal text that starts at `i`, with each `<#<#` read as `<#`, and
/// the index where it ends: the start of a block, or the end of `s`.
pub open spec fn text_from(s: Seq<char>, i: int) -> (Seq<char>, int)
    decreases s.len() - i,
{
    let j = next_open(s, i);
    if 0 <= i <= j && pair_at(s, j, '<', '#') && pair_at(s, j + 2, '<', '#') {
        let rest = text_from(s, j + 4);
        (s.subrange(i, j) + seq!['<', '#'] + rest.0, rest.1)
    } else {
        (s.subrange(i, j), j)
    }
}

/// The content of a block that starts at `i`, with each `#>#>` read as `#>`,
/// and the index after its closing `#>`; `None` where no `#>` closes it.
pub open spec fn code_from(s: Seq<char>, i: int) -> Option<(Seq<char>, int)>
    decreases s.len() - i,
{
    let j = next_close(s, i);
    if !(0 <= i <= j && pair_at(s, j, '#', '>')) {
        None
    } else if pair_at(s, j + 2, '#', '>') {
        match code_from(s, j + 4) {
            Some((c, k)) => Some((s.subrange(i, j) + seq!['#', '>'] + c, k)),
            None => None,
        }
    } else {
        Some((s.subrange(i, j), j + 2))
    }
}

pub open spec fn prepend(
    head: Seq<PartView>,
    r: Result<(Seq<PartView>, InfoView), ErrorKind>,
) -> Result<(Seq<PartView>, InfoView), ErrorKind> {
    match r {
        Ok((ps, st)) => Ok((head + ps, st)),
        Err(e) => Err(e),
    }
}

/// The segments of `s` from `i` on, and the state after the directives among
/// them, starting from `st`; or the error that stops the reading.
pub open spec fn build_from(s: Seq<char>, i: int, st: InfoView) -> Result<
    (Seq<PartView>, InfoView),
    ErrorKind,
>
    decreases s.len() - i,
{
    if i < 0 || i >= s.len() {
        Ok((Seq::empty(), st))
    } else {
        let (t, j) = text_from(s, i);
        let head = PartView::Text(t);
        if !(i <= j && pair_at(s, j, '<', '#')) {
            Ok((seq![head], st))
        } else {
            let start = if char_at(s, j + 2, '=') || char_at(s, j + 2, '@') {
                j + 3
            } else {
                j + 2
            };
            match code_from(s, start) {
                None => Err(ErrorKind::Unclosed),
                Some((c, k)) => if k <= i || k > s.len() {
                    Err(ErrorKind::Unclosed)
                } else if char_at(s, j + 2, '=') {
                    prepend(seq![head, PartView::Expr(c)], build_from(s, k, st))
                } else if char_at(s, j + 2, '@') {
                    match directive_of(c) {
                        None => Err(ErrorKind::Malformed(c)),
                        Some(d) => match apply_spec(st, d) {
                            Err(e) => Err(e),
                            Ok(st1) => prepend(
                                seq![head, PartView::Directive(d)],
                                build_from(s, k, st1),
                            ),
                        },
                    }
                } else {
                    prepend(seq![head, PartView::Code(c)], build_from(s, k, st))
                },
            }
        }
    }
}

/// The segments of a whole template, read with the state `st`.
pub open spec fn build(s: Seq<char>, st: InfoView) -> Result<(Seq<PartView>, InfoView), ErrorKind> {
    build_from(s, 0, st)
}

proof fn lemma_next_open_bounds(s: Seq<char>, i: int)
    requires
        0 <= i <= s.len(),
    ensures
        i <= next_open(s, i) <= s.len(),
        next_open(s, i) < s.len() ==> pair_at(s, next_open(s, i), '<', '#'),
    decreases s.len() - i,
{
    if i < s.len() && !pair_at(s, i, '<', '#') {
        lemma_next_open_bounds(s, i + 1);
    }
}

proof fn lemma_next_close_bounds(s: Seq<char>, i: int)
    requires
        0 <= i <= s.len(),
    ensures
        i <= next_close(s, i) <= s.len(),
        next_close(s, i) < s.len() ==> pair_at(s, next_close(s, i), '#', '>'),
    decreases s.len() - i,
{
    if i < s.len() && !pair_at(s, i, '#', '>') {
        lemma_next_close_bounds(s, i + 1);
    }
}

proof fn lemma_prepend_twice(
    a: Seq<PartView>,
    b: Seq<PartView>,
    r: Result<(Seq<PartView>, InfoView), ErrorKind>,
)
    ensures
        prepend(a, prepend(b, r)) == prepend(a + b, r),
{
    match r {
        Ok((ps, st)) => {
            assert(a + (b + ps) == (a + b) + ps);
        },
        Err(e) => {},
    }
}

proof fn lemma_text_bounds(s: Seq<char>, i: int)
    requires
        0 <= i <= s.len(),
    ensures
        i <= text_from(s, i).1 <= s.len(),
        text_from(s, i).1 < s.len() ==> pair_at(s, text_from(s, i).1, '<', '#'),
    decreases s.len() - i,
{
    lemma_next_open_bounds(s, i);
    let j = next_open(s, i);
    if 0 <= i <= j && pair_at(s, j, '<', '#') && pair_at(s, j + 2, '<', '#') {
        lemma_text_bounds(s, j + 4);
    }
}

proof fn lemma_code_bounds(s: Seq<char>, i: int)
    requires
        0 <= i <= s.len(),
    ensures
        code_from(s, i) matches Some((c, k)) ==> i + 2 <= k <= s.len(),
    decreases s.len() - i,
{
    lemma_next_close_bounds(s, i);
    let j = next_close(s, i);
    if 0 <= i <= j && pair_at(s, j, '#', '>') && pair_at(s, j + 2, '#', '>') {
        lemma_code_bounds(s, j + 4);
    }
}

fn find_open(v: &Vec<char>, i: usize) -> (r: usize)
    requires
        i <= v@.len(),
    ensures
        r as int == next_open(v@, i as int),
        i <= r <= v@.len(),
{
    let mut j = i;
    while j < v.len() && !(j + 1 < v.len() && v[j] == '<' && v[j + 1] == '#')
        invariant
            i <= j <= v@.len(),
            next_open(v@, i as int) == next_open(v@, j as int),
        decreases v@.len() - j,
    {
        j = j + 1;
    }
    j
}

fn find_close(v: &Vec<char>, i: usize) -> (r: usize)
    requires
        i <= v@.len(),
    ensures
        r as int == next_close(v@, i as int),
        i <= r <= v@.len(),
{
    let mut j = i;
    while j < v.len() && !(j + 1 < v.len() && v[j] == '#' && v[j + 1] == '>')
        invariant
            i <= j <= v@.len(),
            next_close(v@, i as int) == next_close(v@, j as int),
        decreases v@.len() - j,
    {
        j = j + 1;
    }
    j
}

fn push_range(out: &mut Vec<char>, v: &Vec<char>, from: usize, to: usize)
    requires
        from <= to <= v@.len(),
    ensures
        final(out)@ == old(out)@ + v@.subrange(from as int, to as int),
{
    let mut k = from;
    while k < to
        invariant
            from <= k <= to <= v@.len(),
            out@ == old(out)@ + v@.subrange(from as int, k as int),
        decreases to - k,
    {
        out.push(v[k]);
        assert(v@.subrange(from as int, k + 1) == v@.subrange(from as int, k as int).push(v@[k as int]));
        k = k + 1;
    }
}

/// Reads literal text from `i` up to the next block, resolving `<#<#`.
fn parse_text(v: &Vec<char>, i: usize) -> (r: (String, usize))
    requires
        i <= v@.len(),
    ensures
        r.0@ == text_from(v@, i as int).0,
        r.1 as int == text_from(v@, i as int).1,
        i <= r.1 <= v@.len(),
{
    let mut content: Vec<char> = Vec::new();
    let mut cur = i;
    loop
        invariant
            i <= cur <= v@.len(),
            text_from(v@, i as int) == (content@ + text_from(v@, cur as int).0, text_from(
                v@,
                cur as int,
            ).1),
        decreases v@.len() - cur,
    {
        let j = find_open(v, cur);
        proof {
            lemma_next_open_bounds(v@, cur as int);
        }
        let ghost before = content@;
        push_range(&mut content, v, cur, j);
        if j < v.len() && v.len() - j > 3 && v[j] == '<' && v[j + 1] == '#' && v[j + 2] == '<' && v[j + 3] == '#' {
            content.push('<');
            content.push('#');
            proof {
                let rest = text_from(v@, j + 4);
                assert(content@ + rest.0 == before + (v@.subrange(cur as int, j as int) + seq![
                    '<',
                    '#',
                ] + rest.0));
            }
            cur = j + 4;
        } else {
            assert(content@ == before + text_from(v@, cur as int).0);
            let s = string_from(&content, 0, content.len());
            assert(content@.subrange(0, content@.len() as int) == content@);
            return (s, j);
        }
    }
}

/// Reads the content of a block from `i` up to its closing `#>`, resolving
/// `#>#>`; `None` where the block is never closed.
fn parse_code(v: &Vec<char>, i: usize) -> (r: Option<(String, usize)>)
    requires
        i <= v@.len(),
    ensures
        match code_from(v@, i as int) {
            Some((c, k)) => r matches Some((x, j)) && x@ == c && j as int == k,
            None => r is None,
        },
{
    let mut content: Vec<char> = Vec::new();
    let mut cur = i;
    loop
        invariant
            i <= cur <= v@.len(),
            code_from(v@, i as int) == (match code_from(v@, cur as int) {
                Some((c, k)) => Some((content@ + c, k)),
                None => None::<(Seq<char>, int)>,
            }),
        decreases v@.len() - cur,
    {
        let j = find_close(v, cur);
        proof {
            lemma_next_close_bounds(v@, cur as int);
        }
        if j >= v.len() {
            return None;
        }
        let ghost before = content@;
        push_range(&mut content, v, cur, j);
        if v.len() - j > 3 && v[j + 2] == '#' && v[j + 3] == '>' {
            content.push('#');
            content.push('>');
            proof {
                match code_from(v@, j + 4) {
                    Some((c, k)) => {
                        assert(content@ + c == before + (v@.subrange(cur as int, j as int) + seq![
                            '#',
                            '>',
                        ] + c));
                    },
                    None => {},
                }
            }
            cur = j + 4;
        } else {
            let s = string_from(&content, 0, content.len());
            assert(content@.subrange(0, content@.len() as int) == content@);
            return Some((s, j + 2));
        }
    }
}

fn unclosed() -> (e: TemplateError)
    ensures
        e.kind@ == ErrorKind::Unclosed,
{
    TemplateError {
        reason: owned("Unclosed code or expression block"),
        index: 0,
        kind: Ghost(ErrorKind::Unclosed),
    }
}

/// Splits a template into its segments. Each directive is applied to `info`
/// as it is read.
#[verifier::rlimit(50)]
pub fn parse_all(info: &mut TemplateInfo, input: &str) -> (r: Result<Vec<TemplatePart>, TemplateError>)
    ensures
        match build(input@, old(info)@) {
            Ok((ps, st)) => r matches Ok(v) && parts_view(v@) == ps && final(info)@ == st,
            Err(k) => r matches Err(e) && e.kind@ == k,
        },
{
    let v = chars_of(input);
    let mut builder: Vec<TemplatePart> = Vec::new();
    let mut cur: usize = 0;
    while cur < v.len()
        invariant
            cur <= v@.len(),
            v@ == input@,
            build(input@, old(info)@) == prepend(parts_view(builder@), build_from(v@, cur as int, info@)),
        decreases v@.len() - cur,
    {
        let ghost prefix = parts_view(builder@);
        let ghost st = info@;
        let (text, j) = parse_text(&v, cur);
        builder.push(TemplatePart::Text(text));
        assert(parts_view(builder@) == prefix.push(PartView::Text(text@)));
        proof {
            lemma_text_bounds(v@, cur as int);
        }
        if j < v.len() {
            let kind = if v.len() - j > 2 { v[j + 2] } else { ' ' };
            let start = if kind == '=' || kind == '@' { j + 3 } else { j + 2 };
            proof {
                lemma_code_bounds(v@, start as int);
            }
            match parse_code(&v, start) {
                None => {
                    return Err(unclosed());
                },
                Some((content, k)) => {
                    if kind == '=' {
                        builder.push(TemplatePart::Expr(content));
                        assert(parts_view(builder@) == prefix + seq![PartView::Text(text@), PartView::Expr(content@)]);
                        assert(build_from(v@, cur as int, st) == prepend(seq![PartView::Text(text@), PartView::Expr(content@)], build_from(v@, k as int, st)));
                        proof {
                            lemma_prepend_twice(prefix, seq![PartView::Text(text@), PartView::Expr(content@)], build_from(v@, k as int, st));
                        }
                    } else if kind == '@' {
                        match parse_directive(content.as_str()) {
                            None => {
                                let mut reason = owned("Could not understand the directive: ");
                                reason.append(content.as_str());
                                return Err(TemplateError { reason, index: 0, kind: Ghost(ErrorKind::Malformed(content@)) });
                            },
                            Some(dir) => {
                                match apply_directive(info, &dir) {
                                    Err(e) => {
                                        return Err(e);
                                    },
                                    Ok(()) => {},
                                }
                                builder.push(TemplatePart::Directive(dir));
                                assert(parts_view(builder@) == prefix + seq![PartView::Text(text@), PartView::Directive(dir@)]);
                                assert(build_from(v@, cur as int, st) == prepend(seq![PartView::Text(text@), PartView::Directive(dir@)], build_from(v@, k as int, info@)));
                                proof {
                                    lemma_prepend_twice(prefix, seq![PartView::Text(text@), PartView::Directive(dir@)], build_from(v@, k as int, info@));
                                }
                            },
                        }
                    } else {
                        builder.push(TemplatePart::Code(content));
                        assert(parts_view(builder@) == prefix + seq![PartView::Text(text@), PartView::Code(content@)]);
                        assert(build_from(v@, cur as int, st) == prepend(seq![PartView::Text(text@), PartView::Code(content@)], build_from(v@, k as int, st)));
                        proof {
                            lemma_prepend_twice(prefix, seq![PartView::Text(text@), PartView::Code(content@)], build_from(v@, k as int, st));
                        }
                    }
                    cur = k;
                },
            }
        } else {
            assert(build_from(v@, cur as int, st) == Ok::<(Seq<PartView>, InfoView), ErrorKind>((seq![PartView::Text(text@)], st)));
            assert(build_from(v@, j as int, st) == Ok::<(Seq<PartView>, InfoView), ErrorKind>((Seq::<PartView>::empty(), st)));
            assert(parts_view(builder@) == prefix + seq![PartView::Text(text@)]);
            proof {
                lemma_prepend_twice(prefix, seq![PartView::Text(text@)], build_from(v@, j as int, st));
            }
            cur = v.len();
        }
    }
    Ok(builder)
}

/// The template text that a segment was read from, where it holds no
/// doubled delimiter.
pub open spec fn source_of(p: PartView) -> Seq<char> {
    match p {
        PartView::Text(t) => t,
        PartView::Code(c) => seq!['<', '#'] + c + seq!['#', '>'],
        PartView::Expr(e) => seq!['<', '#', '='] + e + seq!['#', '>'],
        PartView::Directive(_) => Seq::empty(),
    }
}

/// The template text that segments were read from, in order.
pub open spec fn sources(ps: Seq<PartView>) -> Seq<char>
    decreases ps.len(),
{
    if ps.len() == 0 {
        Seq::empty()
    } else {
        source_of(ps[0]) + sources(ps.drop_first())
    }
}

/// No doubled delimiter and no directive starts at `j`.
pub open spec fn plain_at(s: Seq<char>, j: int) -> bool {
    &&& !(pair_at(s, j, '<', '#') && pair_at(s, j + 2, '<', '#'))
    &&& !(pair_at(s, j, '#', '>') && pair_at(s, j + 2, '#', '>'))
    &&& !(pair_at(s, j, '<', '#') && char_at(s, j + 2, '@'))
}

/// A template without doubled delimiters and without directives.
pub open spec fn is_plain(s: Seq<char>) -> bool {
    forall|j: int| 0 <= j < s.len() ==> #[trigger] plain_at(s, j)
}

proof fn lemma_sources_two(a: PartView, b: PartView, rest: Seq<PartView>)
    ensures
        sources(seq![a, b] + rest) == source_of(a) + source_of(b) + sources(rest),
{
    let all = seq![a, b] + rest;
    let tail = seq![b] + rest;
    assert(all[0] == a);
    assert(tail[0] == b);
    assert(all.drop_first() == tail);
    assert(tail.drop_first() == rest);
    assert(sources(tail) == source_of(b) + sources(rest));
    assert(sources(all) == source_of(a) + sources(tail));
    assert(source_of(a) + (source_of(b) + sources(rest)) == source_of(a) + source_of(b) + sources(
        rest,
    ));
}

proof fn lemma_plain_code(s: Seq<char>, i: int)
    requires
        0 <= i <= s.len(),
        is_plain(s),
    ensures
        next_close(s, i) < s.len() ==> code_from(s, i) == Some(
            (s.subrange(i, next_close(s, i)), next_close(s, i) + 2),
        ),
        next_close(s, i) >= s.len() ==> code_from(s, i) is None,
{
    lemma_next_close_bounds(s, i);
    let j = next_close(s, i);
    if j < s.len() {
        assert(plain_at(s, j));
    }
}

proof fn lemma_round_trip_from(s: Seq<char>, i: int, st: InfoView)
    requires
        0 <= i <= s.len(),
        is_plain(s),
    ensures
        build_from(s, i, st) matches Ok((ps, st2)) ==> sources(ps) == s.subrange(i, s.len() as int)
            && st2 == st,
    decreases s.len() - i,
{
    if i < s.len() {
        lemma_next_open_bounds(s, i);
        let j = next_open(s, i);
        if j < s.len() {
            assert(plain_at(s, j));
        }
        assert(text_from(s, i) == (s.subrange(i, j), j));
        if i <= j && pair_at(s, j, '<', '#') {
            let start = if char_at(s, j + 2, '=') || char_at(s, j + 2, '@') {
                j + 3
            } else {
                j + 2
            };
            lemma_plain_code(s, start);
            let m = next_close(s, start);
            lemma_next_close_bounds(s, start);
            if m < s.len() {
                let k = m + 2;
                lemma_round_trip_from(s, k, st);
                let t = s.subrange(i, j);
                let c = s.subrange(start, m);
                match build_from(s, k, st) {
                    Ok((rest, st2)) => {
                        if char_at(s, j + 2, '=') {
                            assert(build_from(s, i, st) == prepend(seq![PartView::Text(t), PartView::Expr(c)], build_from(s, k, st)));
                            lemma_sources_two(PartView::Text(t), PartView::Expr(c), rest);
                            assert(s.subrange(j, start) == seq!['<', '#', '=']);
                        } else {
                            assert(!char_at(s, j + 2, '@'));
                            assert(build_from(s, i, st) == prepend(seq![PartView::Text(t), PartView::Code(c)], build_from(s, k, st)));
                            lemma_sources_two(PartView::Text(t), PartView::Code(c), rest);
                            assert(s.subrange(j, start) == seq!['<', '#']);
                        }
                        assert(s.subrange(m, k) == seq!['#', '>']);
                        assert(s.subrange(i, s.len() as int) == t + s.subrange(j, start) + c
                            + s.subrange(m, k) + s.subrange(k, s.len() as int));
                        let x = if char_at(s, j + 2, '=') {
                            PartView::Expr(c)
                        } else {
                            PartView::Code(c)
                        };
                        assert(source_of(x) == s.subrange(j, start) + c + s.subrange(m, k));
                        assert(t + source_of(x) + s.subrange(k, s.len() as int) == t + s.subrange(j, start) + c
                            + s.subrange(m, k) + s.subrange(k, s.len() as int));
                    },
                    Err(_) => {},
                }
            }
        } else {
            let t = s.subrange(i, j);
            assert(j == s.len());
            assert(seq![PartView::Text(t)].drop_first() == Seq::<PartView>::empty());
            assert(t + Seq::<char>::empty() == t);
            assert(seq![PartView::Text(t)][0] == PartView::Text(t));
            assert(sources(Seq::<PartView>::empty()) == Seq::<char>::empty());
            assert(sources(seq![PartView::Text(t)]) == t);
        }
    } else {
        assert(s.subrange(i, s.len() as int) == Seq::<char>::empty());
    }
}

/// A template without doubled delimiters and without directives is read into
/// segments that, put back between their delimiters and concatenated, give
/// the template again: text is kept verbatim, and the state is not changed.
pub proof fn lemma_round_trip(s: Seq<char>, st: InfoView)
    requires
        is_plain(s),
    ensures
        build(s, st) matches Ok((ps, st2)) ==> sources(ps) == s && st2 == st,
{
    lemma_round_trip_from(s, 0, st);
    assert(s.subrange(0, s.len() as int) == s);
}

} // verus!
