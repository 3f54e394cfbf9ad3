use t4rust::{
    apply_directive, compile_template, generate_code, generate_expression_print,
    generate_save_str_print, is_ws_till_newline, parse_all, parse_directive, parse_optimize,
    parse_postprocess, unrecognized_params, TemplateDirective, TemplateInfo, TemplatePart,
};

fn text(s: &str) -> TemplatePart {
    TemplatePart::Text(s.to_string())
}

fn code(s: &str) -> TemplatePart {
    TemplatePart::Code(s.to_string())
}

fn expr(s: &str) -> TemplatePart {
    TemplatePart::Expr(s.to_string())
}

fn dir(name: &str, params: &[(&str, &str)]) -> TemplatePart {
    TemplatePart::Directive(TemplateDirective {
        name: name.to_string(),
        params: params.iter().map(|(k, v)| (k.to_string(), v.to_string())).collect(),
    })
}

fn parts(input: &str) -> Vec<TemplatePart> {
    let mut info = TemplateInfo::new();
    match parse_all(&mut info, input) {
        Ok(v) => v,
        Err(e) => panic!("parse failed: {}", e.reason),
    }
}

fn compile(input: &str) -> String {
    let mut info = TemplateInfo::new();
    match compile_template(&mut info, input) {
        Ok(s) => s,
        Err(e) => panic!("compile failed: {}", e.reason),
    }
}

fn text_line(s: &str, fence: &str) -> String {
    format!("_fmt.write_str(r{1}\"{0}\"{1})?;\n", s, fence)
}

#[test]
fn plain_text_is_one_segment() {
    assert_eq!(parts("hello"), vec![text("hello")]);
}

#[test]
fn empty_template_has_no_segments() {
    assert_eq!(parts(""), vec![]);
    assert_eq!(compile(""), "");
}

#[test]
fn blocks_are_classified() {
    assert_eq!(
        parts("a<# c #>b<#= e #>c<#@ escape function=\"f\" #>d"),
        vec![
            text("a"),
            code(" c "),
            text("b"),
            expr(" e "),
            text("c"),
            dir("escape", &[("function", "f")]),
            text("d"),
        ]
    );
}

#[test]
fn round_trip_of_plain_template() {
    let input = "x<# c #>y<#= e #>z";
    let mut rebuilt = String::new();
    for p in parts(input) {
        match p {
            TemplatePart::Text(t) => rebuilt.push_str(&t),
            TemplatePart::Code(c) => rebuilt.push_str(&format!("<#{}#>", c)),
            TemplatePart::Expr(e) => rebuilt.push_str(&format!("<#={}#>", e)),
            TemplatePart::Directive(_) => panic!("no directive expected"),
        }
    }
    assert_eq!(rebuilt, input);
}

#[test]
fn doubled_open_in_text_is_literal() {
    assert_eq!(parts("a<#<#b"), vec![text("a<#b")]);
    assert_eq!(parts("<#<#"), vec![text("<#")]);
}

#[test]
fn doubled_close_in_code_is_literal() {
    assert_eq!(parts("<# x #>#> y #>"), vec![text(""), code(" x #> y ")]);
    assert_eq!(parts("<#a#>#>#>"), vec![text(""), code("a#>")]);
}

#[test]
fn unclosed_block_is_an_error() {
    let mut info = TemplateInfo::new();
    match parse_all(&mut info, "abc <# code") {
        Ok(_) => panic!("expected an error"),
        Err(e) => assert_eq!(e.reason, "Unclosed code or expression block"),
    }
    let mut info = TemplateInfo::new();
    match compile_template(&mut info, "text <#= value") {
        Ok(_) => panic!("expected an error"),
        Err(e) => assert_eq!(e.reason, "Unclosed code or expression block"),
    }
}

#[test]
fn malformed_directive_is_an_error() {
    let mut info = TemplateInfo::new();
    match compile_template(&mut info, "<#@ 123bad #>") {
        Ok(_) => panic!("expected an error"),
        Err(e) => assert_eq!(e.reason, "Could not understand the directive:  123bad "),
    }
}

#[test]
fn bad_boolean_is_an_error() {
    let mut info = TemplateInfo::new();
    match compile_template(&mut info, "<#@ template debug=\"yes\" #>") {
        Ok(_) => panic!("expected an error"),
        Err(e) => assert!(e.reason.ends_with("yes")),
    }
}

#[test]
fn unknown_parameter_is_ignored() {
    let mut info = TemplateInfo::new();
    let out = compile_template(&mut info, "<#@ other key=\"1\" #>x").ok().unwrap();
    assert_eq!(out, text_line("x", "#"));
    assert_eq!(info, TemplateInfo::new());
}

#[test]
fn directive_grammar() {
    assert_eq!(
        parse_directive(" template cleanws=\"true\" debug = \"false\" "),
        Some(TemplateDirective {
            name: "template".to_string(),
            params: vec![
                ("cleanws".to_string(), "true".to_string()),
                ("debug".to_string(), "false".to_string()),
            ],
        })
    );
    assert_eq!(
        parse_directive("escape function=\"a\\\"b\\\\c\""),
        Some(TemplateDirective {
            name: "escape".to_string(),
            params: vec![("function".to_string(), "a\"b\\c".to_string())],
        })
    );
    assert_eq!(
        parse_directive("x k=\"\""),
        Some(TemplateDirective {
            name: "x".to_string(),
            params: vec![("k".to_string(), "".to_string())],
        })
    );
    assert_eq!(parse_directive(" 123bad "), None);
    assert_eq!(parse_directive("a b=\"\\x\""), None);
    assert_eq!(parse_directive("a b=\"open"), None);
    assert_eq!(parse_directive(""), None);
}

#[test]
fn directives_change_the_state() {
    let mut info = TemplateInfo::new();
    let d = TemplateDirective {
        name: "template".to_string(),
        params: vec![
            ("cleanws".to_string(), "true".to_string()),
            ("debug".to_string(), "true".to_string()),
            ("cleanws".to_string(), "false".to_string()),
        ],
    };
    assert!(apply_directive(&mut info, &d).is_ok());
    assert!(info.debug_print);
    assert!(!info.clean_whitespace);
    let e = TemplateDirective {
        name: "escape".to_string(),
        params: vec![("function".to_string(), "esc".to_string())],
    };
    assert!(apply_directive(&mut info, &e).is_ok());
    assert_eq!(info.print_postprocessor, "esc");
    let c = TemplateDirective {
        name: "template".to_string(),
        params: vec![("clean_whitespace".to_string(), "true".to_string())],
    };
    assert!(apply_directive(&mut info, &c).is_ok());
    assert!(info.clean_whitespace);
}

#[test]
fn build_pass_reports_its_state() {
    let mut info = TemplateInfo::new();
    assert!(parse_all(&mut info, "<#@ template debug=\"true\" #>a").is_ok());
    assert!(info.debug_print);
}

#[test]
fn cleaning_removes_the_blank_line() {
    let out = compile("<#@ template cleanws=\"true\" #>A\n<# code #>\nB");
    assert_eq!(out, format!("{} code {}", text_line("A\n", "#"), text_line("B", "#")));
}

#[test]
fn without_cleaning_the_blank_line_stays() {
    let out = compile("A\n<# code #>\nB");
    assert_eq!(out, format!("{} code {}", text_line("A\n", "#"), text_line("\nB", "#")));
}

#[test]
fn cleaning_chains_over_stacked_blocks() {
    let out = compile("<#@ template cleanws=\"true\" #>A\n  <# a #>  \n\t<# b #>\r\nB");
    assert_eq!(out, format!("{} a  b {}", text_line("A\n", "#"), text_line("B", "#")));
}

#[test]
fn cleaning_keeps_inline_blocks() {
    let out = compile("<#@ template cleanws=\"true\" #>A <# code #> B\n");
    assert_eq!(out, format!("{} code {}", text_line("A ", "#"), text_line(" B\n", "#")));
}

#[test]
fn cleaning_skips_expressions() {
    let out = compile("<#@ template cleanws=\"true\" #>A\n<#= v #>\nB");
    assert_eq!(
        out,
        format!(
            "{}write!(_fmt, \"{{}}\",  v )?;\n{}",
            text_line("A\n", "#"),
            text_line("\nB", "#")
        )
    );
}

#[test]
fn cleaning_at_start_of_file() {
    let mut v = vec![text(""), dir("template", &[("cleanws", "true")]), text("  \nX")];
    assert!(parse_postprocess(&mut v).is_ok());
    assert_eq!(v, vec![text(""), dir("template", &[("cleanws", "true")]), text("X")]);
}

#[test]
fn whitespace_till_newline() {
    assert_eq!(is_ws_till_newline("  \r\nx"), Some((2, 2)));
    assert_eq!(is_ws_till_newline("\t\n"), Some((1, 1)));
    assert_eq!(is_ws_till_newline(" x\n"), None);
    assert_eq!(is_ws_till_newline(""), None);
}

#[test]
fn fence_is_longer_than_runs() {
    assert_eq!(generate_save_str_print("a###b"), "_fmt.write_str(r####\"a###b\"####)?;\n");
    assert_eq!(generate_save_str_print("#a##b#"), "_fmt.write_str(r###\"#a##b#\"###)?;\n");
    assert_eq!(generate_save_str_print(""), "_fmt.write_str(r#\"\"#)?;\n");
}

#[test]
fn expression_print() {
    let mut info = TemplateInfo::new();
    assert_eq!(generate_expression_print("x", &info), "write!(_fmt, \"{}\", x)?;\n");
    info.print_postprocessor = "f".to_string();
    assert_eq!(
        generate_expression_print("x", &info),
        "{\nlet _s = format!(\"{}\", x);\nlet _s_transformed = f(&_s);\n_fmt.write_str(&_s_transformed)?;\n}\n"
    );
}

#[test]
fn escape_directive_scopes_expressions() {
    let out = compile(
        "<#= a #><#@ escape function=\"f\" #><#= b #><#@ escape function=\"\" #><#= c #>",
    );
    assert_eq!(
        out,
        "write!(_fmt, \"{}\",  a )?;\n\
         {\nlet _s = format!(\"{}\",  b );\nlet _s_transformed = f(&_s);\n_fmt.write_str(&_s_transformed)?;\n}\n\
         write!(_fmt, \"{}\",  c )?;\n"
    );
}

#[test]
fn merge_joins_neighbours_of_one_kind() {
    let v = vec![
        text("a"),
        text(""),
        text("b"),
        code(""),
        code("x"),
        code("y"),
        dir("d", &[]),
        text("c"),
        expr("e"),
        expr("f"),
    ];
    assert_eq!(
        parse_optimize(v),
        vec![text("ab"), code("xy"), dir("d", &[]), text("c"), expr("ef")]
    );
}

#[test]
fn merge_keeps_empty_expression() {
    assert_eq!(parse_optimize(vec![text(""), expr(""), code("")]), vec![expr("")]);
}

#[test]
fn merge_twice_is_merge_once() {
    let v = vec![text("a"), code("c"), code("d"), text(""), text("b"), dir("d", &[]), text("e")];
    let once = parse_optimize(v);
    let twice = parse_optimize(once.clone());
    assert_eq!(once, twice);
}

#[test]
fn generated_code_for_parts() {
    let v = vec![text("hi"), code("let x = 1;"), expr("x")];
    assert_eq!(
        generate_code(&v).ok().unwrap(),
        format!("{}let x = 1;write!(_fmt, \"{{}}\", x)?;\n", text_line("hi", "#"))
    );
}

#[test]
fn unknown_parameters_are_listed() {
    let d = TemplateDirective {
        name: "template".to_string(),
        params: vec![
            ("debug".to_string(), "true".to_string()),
            ("colour".to_string(), "red".to_string()),
            ("function".to_string(), "f".to_string()),
            ("clean_whitespace".to_string(), "false".to_string()),
        ],
    };
    assert_eq!(unrecognized_params(&d), vec!["colour".to_string(), "function".to_string()]);
    let e = TemplateDirective {
        name: "escape".to_string(),
        params: vec![("function".to_string(), "f".to_string()), ("debug".to_string(), "x".to_string())],
    };
    assert_eq!(unrecognized_params(&e), vec!["debug".to_string()]);
}
