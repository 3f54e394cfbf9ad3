use vstd::prelude::*;

use crate::directive::{apply_directive, apply_spec, is_space, lemma_skip_space_bounds, skip_space};
use crate::model::{default_info, parts_view, ErrorKind, InfoView, PartView, TemplateError, TemplateInfo, TemplatePart};
use crate::scan::{char_at, pair_at};
use crate::text::chars_of;

verus! {

/// The index after the last character before `j` that is not a space or a tab.
pub open spec fn skip_space_back(s: Seq<char>, j: int) -> int
    decreases j,
{
    if 0 < j <= s.len() && is_space(s[j - 1]) {
        skip_space_back(s, j - 1)
    } else {
        j
    }
}

/// Read from the end of `s`: spaces and tabs, then a line ending (read
/// backwards). The number of spaces and tabs, where `s` ends that way.
pub open spec fn trailing_ws(s: Seq<char>) -> Option<nat> {
    let p = skip_space_back(s, s.len() as int);
    if char_at(s, p - 1, '\n') || (char_at(s, p - 1, '\r') && char_at(s, p - 2, '\n')) {
        Some((s.len() - p) as nat)
    } else {
        None
    }
}

/// Read from the start of `s`: spaces and tabs, then `\n` or `\r\n`. The
/// number of spaces and tabs and the length of the line ending, where `s`
/// starts that way.
pub open spec fn leading_ws(s: Seq<char>) -> Option<(nat, nat)> {
    let w = skip_space(s, 0);
    if char_at(s, w, '\n') {
        Some((w as nat, 1))
    } else if pair_at(s, w, '\r', '\n') {
        Some((w as nat, 2))
    } else {
        None
    }
}

/// The state of the cleaning pass: the directives' state so far, and, for the
/// last text that was trimmed at its start, its trailing match (taken before
/// that trim) with the text's index. The window whose first text is that text
/// uses the carried match, so blocks stacked on consecutive lines are all
/// cleaned.
pub struct CleanState {
    pub info: InfoView,
    pub carried: Option<nat>,
    pub carried_at: int,
}

pub open spec fn clean_start() -> CleanState {
    CleanState { info: default_info(), carried: None, carried_at: 0 }
}

/// The pass over the window `ps[i]`, `ps[i + 1]`, `ps[i + 2]`. Where cleaning
/// is on and a code or directive block stands between two texts, alone on
/// its line, the spaces before it on its line and the rest of its line after
/// it are removed.
pub open spec fn window(ps: Seq<PartView>, i: int, cs: CleanState) -> Result<
    (Seq<PartView>, CleanState),
    ErrorKind,
> {
    let applied = match ps[i + 1] {
        PartView::Directive(d) => apply_spec(cs.info, d),
        _ => Ok(cs.info),
    };
    match applied {
        Err(e) => Err(e),
        Ok(info) => {
            let cs1 = CleanState { info, ..cs };
            if !(info.clean_whitespace && ps[i] is Text && (ps[i + 1] is Code || ps[i + 1] is Directive)
                && ps[i + 2] is Text) {
                Ok((ps, cs1))
            } else {
                let a = ps[i]->Text_0;
                let c = ps[i + 2]->Text_0;
                let res_a = if cs.carried_at == i && cs.carried is Some {
                    cs.carried
                } else {
                    match trailing_ws(a) {
                        Some(n) => Some(n),
                        None => if i == 0 && a.len() == 0 {
                            Some(0nat)
                        } else {
                            None
                        },
                    }
                };
                match (res_a, leading_ws(c)) {
                    (Some(ra), Some((w, nl))) => if ra <= a.len() {
                        let cs2 = match trailing_ws(c) {
                            Some(n) => CleanState { carried: Some(n), carried_at: i + 2, ..cs1 },
                            None => cs1,
                        };
                        Ok((
                            ps.update(i, PartView::Text(a.subrange(0, a.len() - ra))).update(
                                i + 2,
                                PartView::Text(c.subrange((w + nl) as int, c.len() as int)),
                            ),
                            cs2,
                        ))
                    } else {
                        Ok((ps, cs1))
                    },
                    _ => Ok((ps, cs1)),
                }
            }
        },
    }
}

/// The segments and the state after the windows that start before `k`.
pub open spec fn clean_upto(ps: Seq<PartView>, k: nat) -> Result<(Seq<PartView>, CleanState), ErrorKind>
    decreases k,
{
    if k == 0 {
        Ok((ps, clean_start()))
    } else {
        match clean_upto(ps, (k - 1) as nat) {
            Ok((q, cs)) => window(q, k - 1, cs),
            Err(e) => Err(e),
        }
    }
}

/// The segments after the cleaning pass.
pub open spec fn clean(ps: Seq<PartView>) -> Result<Seq<PartView>, ErrorKind> {
    if ps.len() < 3 {
        Ok(ps)
    } else {
        match clean_upto(ps, (ps.len() - 2) as nat) {
            Ok((q, _)) => Ok(q),
            Err(e) => Err(e),
        }
    }
}

/// The number of spaces and tabs that `s` ends with after a line ending.
fn trailing_ws_count(s: &str) -> (r: Option<usize>)
    ensures
        match trailing_ws(s@) {
            Some(n) => r == Some(n as usize),
            None => r is None,
        },
{
    let v = chars_of(s);
    let n = v.len();
    let mut p = n;
    while p > 0 && (v[p - 1] == ' ' || v[p - 1] == '\t')
        invariant
            p <= n == v@.len(),
            v@ == s@,
            skip_space_back(v@, n as int) == skip_space_back(v@, p as int),
        decreases p,
    {
        p = p - 1;
    }
    if (p >= 1 && v[p - 1] == '\n') || (p >= 2 && v[p - 1] == '\r' && v[p - 2] == '\n') {
        Some(n - p)
    } else {
        None
    }
}

/// The number of spaces and tabs that `s` starts with before a line ending,
/// and the length of that line ending.
pub fn is_ws_till_newline(s: &str) -> (r: Option<(usize, usize)>)
    ensures
        match leading_ws(s@) {
            Some((w, nl)) => r == Some((w as usize, nl as usize)),
            None => r is None,
        },
{
    let v = chars_of(s);
    let mut w: usize = 0;
    while w < v.len() && (v[w] == ' ' || v[w] == '\t')
        invariant
            w <= v@.len(),
            v@ == s@,
            skip_space(v@, 0) == skip_space(v@, w as int),
        decreases v@.len() - w,
    {
        w = w + 1;
    }
    if w < v.len() && v[w] == '\n' {
        Some((w, 1))
    } else if w < v.len() && v.len() - w > 1 && v[w] == '\r' && v[w + 1] == '\n' {
        Some((w, 2))
    } else {
        None
    }
}

pub open spec fn state_of(info: InfoView, carried: Option<usize>, carried_at: usize) -> CleanState {
    CleanState {
        info,
        carried: match carried {
            Some(n) => Some(n as nat),
            None => None,
        },
        carried_at: carried_at as int,
    }
}

proof fn lemma_clean_error_stays(ps: Seq<PartView>, j: nat, k: nat)
    requires
        j <= k,
        clean_upto(ps, j) is Err,
    ensures
        clean_upto(ps, k) == clean_upto(ps, j),
    decreases k,
{
    if j < k {
        lemma_clean_error_stays(ps, j, (k - 1) as nat);
    }
}

proof fn lemma_leading_ws_bounds(s: Seq<char>)
    ensures
        leading_ws(s) matches Some((w, nl)) ==> w + nl <= s.len(),
{
    lemma_skip_space_bounds(s, 0);
}

/// Removes the whitespace lines left around code and directive blocks that
/// stand alone on their lines, where the whitespace-cleaning flag is on.
#[verifier::rlimit(50)]
pub fn parse_postprocess(data: &mut Vec<TemplatePart>) -> (r: Result<(), TemplateError>)
    ensures
        match clean(parts_view(old(data)@)) {
            Ok(ps) => r is Ok && parts_view(final(data)@) == ps,
            Err(k) => r matches Err(e) && e.kind@ == k,
        },
{
    let n = data.len();
    if n < 3 {
        return Ok(());
    }
    let ghost ps0 = parts_view(data@);
    let mut info = TemplateInfo::new();
    let mut was_b_clean: Option<usize> = None;
    let mut clean_index: usize = 0;
    let mut i: usize = 0;
    while i < n - 2
        invariant
            n == data@.len() == ps0.len(),
            n >= 3,
            i <= n - 2,
            ps0 == parts_view(old(data)@),
            clean_upto(ps0, i as nat) == Ok::<(Seq<PartView>, CleanState), ErrorKind>(
                (parts_view(data@), state_of(info@, was_b_clean, clean_index)),
            ),
        decreases n - 2 - i,
    {
        let ghost q = parts_view(data@);
        let ghost cs = state_of(info@, was_b_clean, clean_index);
        assert(clean_upto(ps0, (i + 1) as nat) == window(q, i as int, cs));
        assert(q[i + 1] == data@[i + 1]@);
        if let TemplatePart::Directive(d) = &data[i + 1] {
            match apply_directive(&mut info, d) {
                Ok(()) => {},
                Err(e) => {
                    proof {
                        lemma_clean_error_stays(ps0, (i + 1) as nat, (n - 2) as nat);
                    }
                    return Err(e);
                },
            }
        }
        let ghost cs1 = CleanState { info: info@, ..cs };
        let go = info.clean_whitespace && data[i].is_text() && data[i + 1].should_trim_whitespace()
            && data[i + 2].is_text();
        if go {
            let res_a: Option<usize> = if clean_index == i && was_b_clean.is_some() {
                was_b_clean
            } else {
                match &data[i] {
                    TemplatePart::Text(a) => match trailing_ws_count(a.as_str()) {
                        Some(m) => Some(m),
                        None => if i == 0 && a.as_str().is_empty() {
                            Some(0)
                        } else {
                            None
                        },
                    },
                    _ => None,
                }
            };
            let res_b = match &data[i + 2] {
                TemplatePart::Text(c) => is_ws_till_newline(c.as_str()),
                _ => None,
            };
            if let (Some(ra), Some((w, nl))) = (res_a, res_b) {
                let a_text: &str = match &data[i] {
                    TemplatePart::Text(a) => a.as_str(),
                    _ => "",
                };
                let c_text: &str = match &data[i + 2] {
                    TemplatePart::Text(c) => c.as_str(),
                    _ => "",
                };
                proof {
                    lemma_leading_ws_bounds(c_text@);
                }
                let la = a_text.unicode_len();
                if ra <= la {
                    let lc = c_text.unicode_len();
                    let a2 = a_text.substring_char(0, la - ra).to_owned();
                    let c2 = c_text.substring_char(w + nl, lc).to_owned();
                    let carried = trailing_ws_count(c_text);
                    data[i] = TemplatePart::Text(a2);
                    data[i + 2] = TemplatePart::Text(c2);
                    if let Some(m) = carried {
                        was_b_clean = Some(m);
                        clean_index = i + 2;
                    }
                    assert(parts_view(data@) =~= q.update(i as int, PartView::Text(a2@)).update(
                        i + 2,
                        PartView::Text(c2@),
                    ));
                }
            }
        }
        i = i + 1;
    }
    Ok(())
}

} // verus!
