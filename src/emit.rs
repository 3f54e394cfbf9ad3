use vstd::prelude::*;

use crate::directive::{apply_directive, apply_spec};
use crate::model::{default_info, parts_view, ErrorKind, InfoView, PartView, TemplateError, TemplateInfo, TemplatePart};
use crate::text::{chars_of, owned};

verus! {

/// The length of the run of `c` at the end of `s`.
pub open spec fn run_at_end(s: Seq<char>, c: char) -> nat
    decreases s.len(),
{
    if s.len() > 0 && s.last() == c {
        1 + run_at_end(s.drop_last(), c)
    } else {
        0
    }
}

/// The length of the longest run of `c` in `s`.
pub open spec fn max_run(s: Seq<char>, c: char) -> nat
    decreases s.len(),
{
    if s.len() == 0 {
        0
    } else {
        let a = max_run(s.drop_last(), c);
        let b = run_at_end(s, c);
        if a >= b {
            a
        } else {
            b
        }
    }
}

/// The fence of a raw string literal holding `s`: one `#` more than the
/// longest run of `#` in `s`.
pub open spec fn fence(s: Seq<char>) -> Seq<char> {
    Seq::new(max_run(s, '#') + 1, |_i: int| '#')
}

/// The statement that writes the literal text `t`.
pub open spec fn text_fragment(t: Seq<char>) -> Seq<char> {
    "_fmt.write_str(r"@ + fence(t) + "\""@ + t + "\""@ + fence(t) + ")?;\n"@
}

/// The statement that writes the value of the expression `e`, through the
/// function named `post` unless that name is empty.
pub open spec fn expr_fragment(e: Seq<char>, post: Seq<char>) -> Seq<char> {
    if post.len() == 0 {
        "write!(_fmt, \"{}\", "@ + e + ")?;\n"@
    } else {
        "{\nlet _s = format!(\"{}\", "@ + e + ");\nlet _s_transformed = "@ + post
            + "(&_s);\n_fmt.write_str(&_s_transformed)?;\n}\n"@
    }
}

/// The code that the segments `ps` become, starting from the state `st`, and
/// the state after their directives.
pub open spec fn emit_spec(ps: Seq<PartView>, st: InfoView) -> Result<(Seq<char>, InfoView), ErrorKind>
    decreases ps.len(),
{
    if ps.len() == 0 {
        Ok((Seq::empty(), st))
    } else {
        match emit_spec(ps.drop_last(), st) {
            Err(e) => Err(e),
            Ok((out, s)) => match ps.last() {
                PartView::Text(t) => Ok((out + text_fragment(t), s)),
                PartView::Code(c) => Ok((out + c, s)),
                PartView::Expr(x) => Ok((out + expr_fragment(x, s.print_postprocessor), s)),
                PartView::Directive(d) => match apply_spec(s, d) {
                    Ok(s2) => Ok((out, s2)),
                    Err(e) => Err(e),
                },
            },
        }
    }
}

proof fn lemma_run_at_end_le(s: Seq<char>, c: char)
    ensures
        run_at_end(s, c) <= s.len(),
    decreases s.len(),
{
    if s.len() > 0 {
        lemma_run_at_end_le(s.drop_last(), c);
    }
}

proof fn lemma_max_run_le(s: Seq<char>, c: char)
    ensures
        max_run(s, c) <= s.len(),
    decreases s.len(),
{
    if s.len() > 0 {
        lemma_max_run_le(s.drop_last(), c);
        lemma_run_at_end_le(s, c);
    }
}

proof fn lemma_run_at_end_ge(s: Seq<char>, c: char, k: int)
    requires
        0 <= k <= s.len(),
        forall|m: int| s.len() - k <= m < s.len() ==> s[m] == c,
    ensures
        run_at_end(s, c) >= k,
    decreases k,
{
    if k > 0 {
        let d = s.drop_last();
        assert forall|m: int| d.len() - (k - 1) <= m < d.len() implies d[m] == c by {
            assert(d[m] == s[m]);
        }
        lemma_run_at_end_ge(d, c, k - 1);
    }
}

proof fn lemma_max_run_ge_prefix(s: Seq<char>, c: char, j: int)
    requires
        0 <= j <= s.len(),
    ensures
        max_run(s, c) >= run_at_end(s.take(j), c),
    decreases s.len(),
{
    if j == s.len() {
        assert(s.take(j) == s);
        if s.len() > 0 {
            assert(max_run(s, c) >= run_at_end(s, c));
        }
    } else {
        assert(s.drop_last().take(j) == s.take(j));
        lemma_max_run_ge_prefix(s.drop_last(), c, j);
    }
}

/// The fence of a text is longer than every run of `#` in that text, so the
/// text can never close its own literal.
pub proof fn lemma_fence_exceeds_runs(s: Seq<char>, i: int, k: int)
    requires
        0 <= i,
        0 <= k,
        i + k <= s.len(),
        forall|m: int| i <= m < i + k ==> s[m] == '#',
    ensures
        k < fence(s).len(),
{
    let p = s.take(i + k);
    assert forall|m: int| p.len() - k <= m < p.len() implies p[m] == '#' by {
        assert(p[m] == s[m]);
    }
    lemma_run_at_end_ge(p, '#', k);
    lemma_max_run_ge_prefix(s, '#', i + k);
}

/// The statement that writes `print_str` verbatim, as a raw string literal.
pub fn generate_save_str_print(print_str: &str) -> (r: String)
    ensures
        r@ == text_fragment(print_str@),
{
    let v = chars_of(print_str);
    let mut max_sharp_count: usize = 0;
    let mut cur_sharp_count: usize = 0;
    let mut i: usize = 0;
    while i < v.len()
        invariant
            v@ == print_str@,
            i <= v@.len(),
            cur_sharp_count as nat == run_at_end(v@.take(i as int), '#'),
            max_sharp_count as nat == max_run(v@.take(i as int), '#'),
        decreases v@.len() - i,
    {
        proof {
            let t = v@.take(i + 1);
            assert(t.drop_last() == v@.take(i as int));
            lemma_run_at_end_le(v@.take(i as int), '#');
        }
        if v[i] == '#' {
            cur_sharp_count = cur_sharp_count + 1;
            if cur_sharp_count > max_sharp_count {
                max_sharp_count = cur_sharp_count;
            }
        } else {
            cur_sharp_count = 0;
        }
        i = i + 1;
    }
    proof {
        assert(v@.take(i as int) == print_str@);
        lemma_max_run_le(print_str@, '#');
    }
    let mut sharps = owned("#");
    proof {
        reveal_strlit("#");
        assert(sharps@ =~= Seq::new(1, |_i: int| '#'));
    }
    let mut k: usize = 0;
    while k < max_sharp_count
        invariant
            k <= max_sharp_count,
            sharps@ == Seq::new((k + 1) as nat, |_i: int| '#'),
        decreases max_sharp_count - k,
    {
        let ghost before = sharps@;
        sharps.append("#");
        proof {
            reveal_strlit("#");
            assert(sharps@ =~= Seq::new((k + 2) as nat, |_i: int| '#'));
        }
        k = k + 1;
    }
    let mut out = owned("_fmt.write_str(r");
    out.append(sharps.as_str());
    out.append("\"");
    out.append(print_str);
    out.append("\"");
    out.append(sharps.as_str());
    out.append(")?;\n");
    out
}

/// The statement that writes the value of `print_expr`, through the state's
/// postprocessing function if one is set.
pub fn generate_expression_print(print_expr: &str, info: &TemplateInfo) -> (r: String)
    ensures
        r@ == expr_fragment(print_expr@, info.print_postprocessor@),
{
    if info.print_postprocessor.as_str().is_empty() {
        let mut out = owned("write!(_fmt, \"{}\", ");
        out.append(print_expr);
        out.append(")?;\n");
        out
    } else {
        let mut out = owned("{\nlet _s = format!(\"{}\", ");
        out.append(print_expr);
        out.append(");\nlet _s_transformed = ");
        out.append(info.print_postprocessor.as_str());
        out.append("(&_s);\n_fmt.write_str(&_s_transformed)?;\n}\n");
        out
    }
}

/// The code that writes the output of the segments `parts`, with the state
/// starting from its defaults.
pub fn generate_code(parts: &Vec<TemplatePart>) -> (r: Result<String, TemplateError>)
    ensures
        match emit_spec(parts_view(parts@), default_info()) {
            Ok((out, _)) => r matches Ok(x) && x@ == out,
            Err(k) => r matches Err(e) && e.kind@ == k,
        },
{
    let mut info = TemplateInfo::new();
    let mut builder = String::new();
    let mut i: usize = 0;
    while i < parts.len()
        invariant
            i <= parts@.len(),
            emit_spec(parts_view(parts@).take(i as int), default_info()) == Ok::<
                (Seq<char>, InfoView),
                ErrorKind,
            >((builder@, info@)),
        decreases parts@.len() - i,
    {
        let ghost ps = parts_view(parts@).take(i + 1);
        assert(ps.drop_last() == parts_view(parts@).take(i as int));
        assert(ps.last() == parts@[i as int]@);
        match &parts[i] {
            TemplatePart::Text(x) => {
                let f = generate_save_str_print(x.as_str());
                builder.append(f.as_str());
            },
            TemplatePart::Code(x) => {
                builder.append(x.as_str());
            },
            TemplatePart::Expr(x) => {
                let f = generate_expression_print(x.as_str(), &info);
                builder.append(f.as_str());
            },
            TemplatePart::Directive(dir) => {
                match apply_directive(&mut info, dir) {
                    Ok(()) => {},
                    Err(e) => {
                        proof {
                            lemma_emit_error_stays(parts_view(parts@), default_info(), i + 1);
                        }
                        return Err(e);
                    },
                }
            },
        }
        i = i + 1;
    }
    assert(parts_view(parts@).take(i as int) == parts_view(parts@));
    Ok(builder)
}

proof fn lemma_emit_error_stays(ps: Seq<PartView>, st: InfoView, j: int)
    requires
        0 <= j <= ps.len(),
        emit_spec(ps.take(j), st) is Err,
    ensures
        emit_spec(ps, st) == emit_spec(ps.take(j), st),
    decreases ps.len(),
{
    if j == ps.len() {
        assert(ps.take(j) == ps);
    } else {
        assert(ps.drop_last().take(j) == ps.take(j));
        lemma_emit_error_stays(ps.drop_last(), st, j);
    }
}

} // verus!
