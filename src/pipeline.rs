use vstd::prelude::*;

use crate::clean::{clean, parse_postprocess};
use crate::emit::{emit_spec, generate_code};
use crate::merge::{merge, parse_optimize};
use crate::model::{parts_view, ErrorKind, InfoView, TemplateError, TemplateInfo};
use crate::scan::{build, parse_all};

verus! {

/// The code that a template compiles to, read with the state `st`, and the
/// state after reading; or the error that stops the compilation.
pub open spec fn compile(s: Seq<char>, st: InfoView) -> Result<(Seq<char>, InfoView), ErrorKind> {
    match build(s, st) {
        Err(e) => Err(e),
        Ok((ps, st1)) => match clean(ps) {
            Err(e) => Err(e),
            Ok(c) => match emit_spec(merge(c), crate::model::default_info()) {
                Err(e) => Err(e),
                Ok((out, _)) => Ok((out, st1)),
            },
        },
    }
}

/// Compiles a template into code that writes its output to `_fmt`. The
/// template is read with the state `info`, which then holds the state after
/// the template's directives; the code is generated with a fresh state.
pub fn compile_template(info: &mut TemplateInfo, input: &str) -> (r: Result<String, TemplateError>)
    ensures
        match compile(input@, old(info)@) {
            Ok((out, st)) => r matches Ok(x) && x@ == out && final(info)@ == st,
            Err(k) => r matches Err(e) && e.kind@ == k,
        },
{
    let mut data = parse_all(info, input)?;
    parse_postprocess(&mut data)?;
    let data = parse_optimize(data);
    generate_code(&data)
}

} // verus!
