use callgraph::callee::Callee;

fn lines(text: &str) -> Vec<String> {
    text.lines().map(|l| l.to_string()).collect()
}

const EXAMPLE_C: &str = "#include <stdio.h>

void fnD()
{
    printf(\"D\\n\");
}

void fnC()
{
    printf(\"C\\n\");
    fnD();
}

void fnB()
{
    printf(\"B\\n\");
}

void fnA()
{
    printf(\"A\\n\");
    fnB();
    fnC();
}
";

#[test]
fn readme_example_callee_graph() {
    let mut callee = Callee::new("fnA".to_string(), "yaml_output/callee_graph.yaml".to_string());
    callee.source = lines(EXAMPLE_C);
    assert!(callee.try_generate_call_graph(3));
    let expected = "<callee_graph>
0: fnA()
    1: printf()
    1: fnB()
        2: printf()
    1: fnC()
        2: printf()
        2: fnD()
            3: printf()
";
    assert_eq!(callee.output_yaml(), expected);
}

#[test]
fn callee_root_children_follow_the_body() {
    let mut callee = Callee::new("fnA".to_string(), "out.yaml".to_string());
    callee.source = lines(EXAMPLE_C);
    callee.generate_call_graph(1);
    let root = &callee.root;
    assert_eq!(root.name(), "fnA");
    assert_eq!(root.curr_depth(), 0);
    assert_eq!(root.num_children(), 3);
    assert_eq!(root.child(0).name(), "printf");
    assert_eq!(root.child(1).name(), "fnB");
    assert_eq!(root.child(2).name(), "fnC");
    for i in 0..3 {
        assert_eq!(root.child(i).curr_depth(), 1);
        assert_eq!(root.child(i).num_children(), 0);
    }
}

#[test]
fn callee_depth_zero_keeps_only_the_root() {
    let mut callee = Callee::new("fnC".to_string(), "out.yaml".to_string());
    callee.source = lines(EXAMPLE_C);
    assert!(callee.try_generate_call_graph(0));
    assert_eq!(callee.output_yaml(), "<callee_graph>\n0: fnC()\n");
}

#[test]
fn callee_depth_one_expands_the_root_only() {
    let mut callee = Callee::new("fnC".to_string(), "out.yaml".to_string());
    callee.set_source(lines(EXAMPLE_C));
    assert!(callee.try_generate_call_graph(1));
    assert!(callee.can_output());
    assert_eq!(callee.output_yaml(), "<callee_graph>\n0: fnC()\n    1: printf()\n    1: fnD()\n");
    assert_eq!(callee.root_node().num_children(), 2);
}

#[test]
fn callee_undefined_root_has_no_children() {
    let mut callee = Callee::new("missing".to_string(), "out.yaml".to_string());
    callee.source = lines(EXAMPLE_C);
    assert!(callee.try_generate_call_graph(3));
    assert_eq!(callee.output_yaml(), "<callee_graph>\n0: missing()\n");
}

#[test]
fn callee_multiline_header_and_nested_blocks() {
    let src = "int add(int a,
        int b)
{
    if (a) {
        helper(a, b);
    }
    return other(a) + more(b);
}
";
    let mut callee = Callee::new("add".to_string(), "out.yaml".to_string());
    callee.source = lines(src);
    assert!(callee.try_generate_call_graph(1));
    assert_eq!(
        callee.output_yaml(),
        "<callee_graph>\n0: add()\n    1: helper()\n    1: other()\n    1: more()\n"
    );
}

#[test]
fn callee_comments_are_not_calls() {
    let src = "void f()
{
    // g();
    /* h(); */
    * k();
    m();
}
";
    let mut callee = Callee::new("f".to_string(), "out.yaml".to_string());
    callee.source = lines(src);
    assert!(callee.try_generate_call_graph(1));
    assert_eq!(callee.output_yaml(), "<callee_graph>\n0: f()\n    1: m()\n");
}

#[test]
fn callee_unclosed_body_cannot_be_analyzed() {
    let src = "void f()
{
    g();
";
    let mut callee = Callee::new("f".to_string(), "out.yaml".to_string());
    callee.source = lines(src);
    assert!(!callee.try_generate_call_graph(2));
    assert_eq!(callee.output_yaml(), "<callee_graph>\n0: f()\n");
}

#[test]
fn callee_header_at_end_of_source_is_no_definition() {
    let src = "void g()\n{\n}\nint f(int a);";
    let mut callee = Callee::new("f".to_string(), "out.yaml".to_string());
    callee.source = lines(src);
    assert!(callee.try_generate_call_graph(2));
    assert_eq!(callee.output_yaml(), "<callee_graph>\n0: f()\n");
}

#[test]
fn callee_single_line_header_is_no_definition() {
    let mut callee = Callee::new("fnA".to_string(), "out.yaml".to_string());
    callee.source = lines("int fnA(void)");
    assert!(callee.try_generate_call_graph(1));
    assert_eq!(callee.output_yaml(), "<callee_graph>\n0: fnA()\n");
}

#[test]
fn callee_prototype_line_opens_the_following_definition() {
    let src = "int fnB(void);
int fnB(void)
{
    fnC();
}
";
    let mut callee = Callee::new("fnB".to_string(), "out.yaml".to_string());
    callee.source = lines(src);
    assert!(callee.try_generate_call_graph(1));
    assert_eq!(callee.output_yaml(), "<callee_graph>\n0: fnB()\n    1: fnC()\n");
}

#[test]
fn callee_second_generation_appends_again() {
    let mut callee = Callee::new("fnC".to_string(), "out.yaml".to_string());
    callee.source = lines(EXAMPLE_C);
    assert!(callee.try_generate_call_graph(1));
    assert!(callee.try_generate_call_graph(1));
    assert_eq!(
        callee.output_yaml(),
        "<callee_graph>\n0: fnC()\n    1: printf()\n    1: fnD()\n    1: printf()\n    1: fnD()\n"
    );
}

#[test]
fn callee_output_path_is_kept() {
    let callee = Callee::new("f".to_string(), "yaml_output/x.yaml".to_string());
    assert_eq!(callee.yaml_file_path(), "yaml_output/x.yaml");
}

#[test]
fn callee_calls_from_matches_drops_each_paren() {
    let t: Vec<char> = "x = fnA(fnB(1));".chars().collect();
    let matches = vec!["fnA(".to_string(), "fnB(".to_string()];
    assert_eq!(Callee::calls_from_matches(&t, true, &matches), vec!["fnA".to_string(), "fnB".to_string()]);
}

#[test]
fn callee_calls_from_matches_needs_shape_and_close_paren() {
    let t: Vec<char> = "x = fnA(fnB(1));".chars().collect();
    let matches = vec!["fnA(".to_string()];
    assert!(Callee::calls_from_matches(&t, false, &matches).is_empty());
    let open_only: Vec<char> = "fnA(".chars().collect();
    assert!(Callee::calls_from_matches(&open_only, true, &matches).is_empty());
    let comment: Vec<char> = "// fnA(1);".chars().collect();
    assert!(Callee::calls_from_matches(&comment, true, &matches).is_empty());
}

#[test]
fn callee_lookup_twice_gives_the_same_callees() {
    let mut callee = Callee::new("fnC".to_string(), "out.yaml".to_string());
    callee.source = lines(EXAMPLE_C);
    let first = callee.lookup_callees(&"fnC".to_string());
    let second = callee.lookup_callees(&"fnC".to_string());
    assert_eq!(first, Some(vec!["printf".to_string(), "fnD".to_string()]));
    assert_eq!(first, second);
}

#[test]
fn callee_lookup_of_undefined_name_is_empty() {
    let mut callee = Callee::new("fnC".to_string(), "out.yaml".to_string());
    callee.source = lines(EXAMPLE_C);
    assert_eq!(callee.lookup_callees(&"printf".to_string()), Some(vec![]));
    assert_eq!(callee.lookup_callees(&"printf".to_string()), Some(vec![]));
}

#[test]
fn callee_remembered_lookups_leave_the_graph_as_a_fresh_one() {
    let mut fresh = Callee::new("fnA".to_string(), "out.yaml".to_string());
    fresh.source = lines(EXAMPLE_C);
    assert!(fresh.try_generate_call_graph(3));
    let mut used = Callee::new("fnA".to_string(), "out.yaml".to_string());
    used.source = lines(EXAMPLE_C);
    assert!(used.lookup_callees(&"fnC".to_string()).is_some());
    assert!(used.lookup_callees(&"printf".to_string()).is_some());
    assert!(used.try_generate_call_graph(3));
    assert_eq!(used.output_yaml(), fresh.output_yaml());
}
