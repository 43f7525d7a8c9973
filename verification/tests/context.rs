use codegraide::context::{
    render_context, Change, ChangedFile, Code, ContextEdge, ContextLimits, ContextOrigin,
    ContextReport, ContextSymbol, OtherSnapshot, SourceLocation, SourceRecord,
};

const COMMIT: &str = "0123456789abcdef0123";

fn record(reference: &str, path: &str, start: usize, end: usize, changed: Option<bool>, code: Code) -> SourceRecord {
    SourceRecord {
        reference: reference.to_owned(),
        commit: COMMIT.to_owned(),
        path: path.to_owned(),
        start_line: start,
        end_line: end,
        changed,
        code,
    }
}

fn included(text: &str) -> Code {
    Code { state: "included", text: Some(text.to_owned()), reason: None }
}

fn symbol(name: &str, source: SourceRecord, roles: &[&str]) -> ContextSymbol {
    ContextSymbol {
        source,
        name: name.to_owned(),
        kind: "function".to_owned(),
        signature: None,
        definition: true,
        link_status: "linked".to_owned(),
        roles: roles.iter().map(|r| r.to_string()).collect(),
        origin: None,
        other_snapshots: Vec::new(),
        declarations: Vec::new(),
    }
}

#[test]
fn code_is_included_within_the_byte_budget() {
    let mut budget = 10;
    let code = Code::from_source(Some("héllo"), true, &mut budget);
    assert_eq!((code.state, code.text.as_deref(), code.reason), ("included", Some("héllo"), None));
    assert_eq!(budget, 4);
    let code = Code::from_source(Some("hello"), true, &mut budget);
    assert_eq!((code.state, code.reason), ("omitted", Some("code-byte-limit")));
    assert_eq!(budget, 4);
    let code = Code::from_source(Some("hi"), false, &mut budget);
    assert_eq!((code.state, code.reason), ("omitted", Some("callee-body-policy")));
    let code = Code::from_source(None, true, &mut budget);
    assert_eq!((code.state, code.reason), ("unavailable", Some("invalid-or-unavailable-source-span")));
    assert_eq!(budget, 4);
}

#[test]
fn default_limits_are_bounded() {
    let limits = ContextLimits::default();
    assert_eq!((limits.depth, limits.max_symbols, limits.max_edges), (1, 200, 1000));
    assert_eq!(limits.max_code_bytes, 1_048_576);
    assert!(!limits.include_callees && !limits.show_declarations && !limits.all_relations);
}

#[test]
fn context_text_lists_changes_symbols_relations_and_omissions() {
    let f_ref = "rc1:0123456789abcdef0123:b:0:1:61";
    let g_ref = "rc1:0123456789abcdef0123:c:0:1:62";
    let h_ref = "rc1:fedcba9876543210ffff:d:0:1:63";
    let f = symbol(
        "f",
        record(f_ref, "src/a.py", 9, 10, Some(true), included("def f():\r\n  return 1\n")),
        &["changed"],
    );
    let mut g = symbol(
        "g",
        record(
            g_ref,
            "src/b.py",
            20,
            25,
            None,
            Code { state: "omitted", text: None, reason: Some("code-byte-limit") },
        ),
        &["callee", "caller"],
    );
    g.signature = Some("def g()".to_owned());
    g.origin = Some(ContextOrigin {
        from: f_ref.to_owned(),
        role: "callee".to_owned(),
        resolution: "exact".to_owned(),
    });
    let mut h = symbol("h", record(h_ref, "src/h.py", 1, 1, Some(false), included("h()")), &["caller"]);
    h.signature = Some("def h()".to_owned());
    h.origin = Some(ContextOrigin {
        from: f_ref.to_owned(),
        role: "caller".to_owned(),
        resolution: "inferred".to_owned(),
    });
    h.other_snapshots = vec![OtherSnapshot {
        source: SourceLocation {
            reference: "rc1:other".to_owned(),
            commit: "abcdefabcdefabcdef".to_owned(),
            path: "old/h.py".to_owned(),
            start_line: 3,
            end_line: 4,
        },
        origin: None,
        declarations: vec![SourceLocation {
            reference: "rc1:decl".to_owned(),
            commit: "abcdefabcdef0000".to_owned(),
            path: "old/h.h".to_owned(),
            start_line: 1,
            end_line: 1,
        }],
    }];
    let report = ContextReport {
        schema_version: "review-context-v1",
        base: Some("base".to_owned()),
        head: "head".to_owned(),
        language: "python",
        analyzers: Vec::new(),
        files: vec![
            ChangedFile {
                before: None,
                after: Some("src/c.py".to_owned()),
                status: "modified",
                analysis: "syntax".to_owned(),
                changed_functions: 0,
            },
            ChangedFile {
                before: None,
                after: Some("src/a.py".to_owned()),
                status: "modified",
                analysis: "syntax".to_owned(),
                changed_functions: 1,
            },
        ],
        changes: vec![Change {
            status: "modified",
            matching: "same-identity",
            reason: None,
            before: Some("rc1:missing".to_owned()),
            after: Some(f_ref.to_owned()),
        }],
        symbols: vec![f, g, h],
        relations: vec![ContextEdge {
            snapshot: COMMIT.to_owned(),
            from: f_ref.to_owned(),
            from_name: "f".to_owned(),
            to: Some(g_ref.to_owned()),
            to_name: Some("g".to_owned()),
            relation: "call",
            resolution: "exact".to_owned(),
            candidates: Vec::new(),
            path: "src/a.py".to_owned(),
            line: 10,
            column: 2,
            expression: "g()".to_owned(),
            reason: None,
        }],
        limits: ContextLimits::default(),
        omissions: vec![("context-relations".to_owned(), 2), ("context-symbols".to_owned(), 0)],
        limitations: Vec::new(),
        diagnostics: vec!["partial parse".to_owned()],
    };
    let expected = [
        "f [modified]",
        "AFTER src/a.py:9-10 [changed] @0123456789ab",
        "   9  def f():",
        "  10    return 1",
        "",
        "g [context; callee,caller]",
        "src/b.py:20-25 [context] @0123456789ab",
        "code [omitted: code-byte-limit]",
        "  def g()",
        "",
        "h [unchanged; caller]",
        "src/h.py:1-1 [unchanged] @0123456789ab",
        "   1  h()",
        "via f [caller; inferred] @0123456789ab",
        "same source @abcdefabcdef old/h.py:3-4",
        "same declaration @abcdefabcdef old/h.h:1-1",
        "",
        "Relations",
        "  f -> g [call; exact] src/a.py:10 @0123456789ab",
        "file src/c.py [modified; syntax; no changed function body]",
        "omitted context-relations=2 (--all-relations)",
        "! partial parse",
        "",
    ]
    .join("\n");
    assert_eq!(render_context(&report), expected);
}
