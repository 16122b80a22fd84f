use callgraph::caller::Caller;

fn lines(text: &str) -> Vec<String> {
    text.lines().map(|l| l.to_string()).collect()
}

const SOURCE: &str = "void helper(int a)
{
    log(a);
}

int compute(int x)
{
    return helper(x) + 1;
}

int main()
{
    compute(3);
    helper(4);
}
";

#[test]
fn caller_graph_down_to_depth_two() {
    let mut caller = Caller::new("helper".to_string(), "yaml_output/caller_graph.yaml".to_string());
    caller.source = lines(SOURCE);
    assert!(caller.try_generate_call_graph(2));
    assert_eq!(
        caller.output_yaml(),
        "0: helper()\n    1: compute()\n        2: main()\n    1: main()\n"
    );
}

#[test]
fn caller_root_children_are_the_calling_functions() {
    let mut caller = Caller::new("log".to_string(), "out.yaml".to_string());
    caller.source = lines(SOURCE);
    caller.generate_call_graph(1);
    let root = &caller.root;
    assert_eq!(root.num_children(), 1);
    assert_eq!(root.child(0).name(), "helper");
    assert_eq!(root.child(0).curr_depth(), 1);
}

#[test]
fn caller_remembered_callers_give_the_same_names() {
    let src = "void log(int a)
{
}
void helper(int a)
{
    log(a);
}
int compute(int x)
{
    log(x);
    helper(x);
}
int main()
{
    compute(3);
}
";
    let mut caller = Caller::new("log".to_string(), "out.yaml".to_string());
    caller.source = lines(src);
    assert!(caller.try_generate_call_graph(3));
    assert_eq!(
        caller.output_yaml(),
        "0: log()\n    1: helper()\n        2: compute()\n            3: main()\n    1: compute()\n        2: main()\n"
    );
}

#[test]
fn caller_call_before_any_definition_has_an_empty_caller() {
    let src = "int x = helper(1);

void helper(int a)
{
}
";
    let mut caller = Caller::new("helper".to_string(), "out.yaml".to_string());
    caller.source = lines(src);
    assert!(caller.try_generate_call_graph(1));
    assert_eq!(caller.output_yaml(), "0: helper()\n    1: ()\n");
}

#[test]
fn caller_header_over_two_lines() {
    let src = "int sum(int a,
        int b)
{
    target(a);
}
";
    let mut caller = Caller::new("target".to_string(), "out.yaml".to_string());
    caller.source = lines(src);
    assert!(caller.try_generate_call_graph(1));
    assert_eq!(caller.output_yaml(), "0: target()\n    1: sum()\n");
}

#[test]
fn caller_unused_function_has_no_children() {
    let mut caller = Caller::new("main".to_string(), "out.yaml".to_string());
    caller.source = lines(SOURCE);
    assert!(caller.try_generate_call_graph(4));
    assert_eq!(caller.output_yaml(), "0: main()\n");
}

#[test]
fn caller_definition_line_without_name_cannot_be_analyzed() {
    let src = "(void)
{
}
";
    let mut caller = Caller::new("f".to_string(), "out.yaml".to_string());
    caller.source = lines(src);
    assert!(!caller.try_generate_call_graph(1));
    assert_eq!(caller.output_yaml(), "0: f()\n");
}

#[test]
fn caller_depth_zero_keeps_only_the_root() {
    let mut caller = Caller::new("helper".to_string(), "out.yaml".to_string());
    caller.source = lines(SOURCE);
    caller.generate_call_graph(0);
    assert_eq!(caller.output_yaml(), "0: helper()\n");
}

#[test]
fn caller_output_path_is_kept() {
    let caller = Caller::new("f".to_string(), "yaml_output/c.yaml".to_string());
    assert_eq!(caller.yaml_file_path(), "yaml_output/c.yaml");
}

#[test]
fn caller_lookup_twice_gives_the_same_callers() {
    let mut caller = Caller::new("helper".to_string(), "out.yaml".to_string());
    caller.source = lines(SOURCE);
    let first = caller.lookup_callers(&"helper".to_string());
    let second = caller.lookup_callers(&"helper".to_string());
    assert_eq!(first, Some(vec!["compute".to_string(), "main".to_string()]));
    assert_eq!(first, second);
}

#[test]
fn caller_lookup_of_uncalled_name_is_empty() {
    let mut caller = Caller::new("main".to_string(), "out.yaml".to_string());
    caller.source = lines(SOURCE);
    assert_eq!(caller.lookup_callers(&"main".to_string()), Some(vec![]));
    assert_eq!(caller.lookup_callers(&"main".to_string()), Some(vec![]));
}

#[test]
fn caller_repeated_lookup_differs_before_any_definition() {
    let mut caller = Caller::new("helper".to_string(), "out.yaml".to_string());
    caller.source = lines("int x = helper(1);\n\nvoid helper(int a)\n{\n}\n");
    assert_eq!(caller.lookup_callers(&"helper".to_string()), Some(vec!["".to_string()]));
    assert_eq!(caller.lookup_callers(&"helper".to_string()), Some(vec!["helper".to_string()]));
}

#[test]
fn caller_scan_with_given_names() {
    let mut caller = Caller::new("helper".to_string(), "out.yaml".to_string());
    caller.source = lines(SOURCE);
    let paren: Vec<char> = "helper(".chars().collect();
    let mut names: Vec<Option<String>> = vec![None; caller.source.len()];
    names[0] = Some("h".to_string());
    names[5] = Some("c".to_string());
    names[10] = Some("m".to_string());
    assert_eq!(
        caller.scan_with_names(&paren, &names),
        Some((vec!["c".to_string(), "m".to_string()], vec![5, 10]))
    );
    names[10] = None;
    assert_eq!(caller.scan_with_names(&paren, &names), None);
}

#[test]
fn caller_remembered_lookups_leave_the_graph_as_a_fresh_one() {
    let mut fresh = Caller::new("helper".to_string(), "out.yaml".to_string());
    fresh.source = lines(SOURCE);
    assert!(fresh.try_generate_call_graph(2));
    let mut used = Caller::new("helper".to_string(), "out.yaml".to_string());
    used.source = lines(SOURCE);
    assert!(used.lookup_callers(&"compute".to_string()).is_some());
    assert!(used.lookup_callers(&"main".to_string()).is_some());
    assert!(used.try_generate_call_graph(2));
    assert_eq!(used.output_yaml(), fresh.output_yaml());
}
