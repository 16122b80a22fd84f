use callgraph::analyze::Parser;
use callgraph::graph::FunctionNode;

fn lines(text: &str) -> Vec<String> {
    text.lines().map(|l| l.to_string()).collect()
}

const SOURCE: &str = "int main()
{
    init();
    run(x);
    y = compute(2);
    return 0;
}
void run(int x)
{
    step();
}
";

#[test]
fn parser_graph_down_to_depth_two() {
    let mut parser = Parser::new("main".to_string(), "yaml_output/call_graph.yaml".to_string());
    parser.source = lines(SOURCE);
    assert!(parser.try_generate_call_graph(2));
    assert_eq!(parser.output_yaml(), "0: main()\n    1: init()\n    1: run()\n        2: step()\n");
}

#[test]
fn parser_depth_zero_keeps_only_the_root() {
    let mut parser = Parser::new("main".to_string(), "out.yaml".to_string());
    parser.source = lines(SOURCE);
    parser.generate_call_graph(0);
    assert_eq!(parser.output_yaml(), "0: main()\n");
    assert_eq!(parser.root.num_children(), 0);
}

#[test]
fn parser_statements_with_operators_are_not_calls() {
    let src = "void f()
{
    a = g();
    b + h();
    // k();
    p->q();
    obj . method ( 1 );
}
";
    let mut parser = Parser::new("f".to_string(), "out.yaml".to_string());
    parser.source = lines(src);
    assert!(parser.try_generate_call_graph(1));
    assert_eq!(parser.output_yaml(), "0: f()\n    1: method()\n");
}

#[test]
fn parser_nested_block_lines_are_counted() {
    let src = "void f()
{
    if (x)
    {
        g();
    }
    h();
}
void later()
{
    never();
}
";
    let mut parser = Parser::new("f".to_string(), "out.yaml".to_string());
    parser.source = lines(src);
    assert!(parser.try_generate_call_graph(1));
    assert_eq!(parser.output_yaml(), "0: f()\n    1: g()\n    1: h()\n");
}

#[test]
fn parser_unclosed_body_cannot_be_analyzed() {
    let src = "void f()\n{\n    g();";
    let mut parser = Parser::new("f".to_string(), "out.yaml".to_string());
    parser.source = lines(src);
    assert!(!parser.try_generate_call_graph(1));
    assert_eq!(parser.output_yaml(), "0: f()\n");
}

#[test]
fn parser_remembered_line_past_a_shorter_source_cannot_be_analyzed() {
    let mut parser = Parser::new("main".to_string(), "out.yaml".to_string());
    parser.source = lines(SOURCE);
    assert!(parser.try_generate_call_graph(1));
    parser.source = Vec::new();
    assert!(!parser.try_generate_call_graph(1));
    assert_eq!(parser.output_yaml(), "0: main()\n    1: init()\n    1: run()\n");
}

#[test]
fn parser_root_deeper_than_the_limit_grows_until_calls_run_out() {
    let mut parser = Parser::new("main".to_string(), "out.yaml".to_string());
    parser.source = lines(SOURCE);
    parser.root = FunctionNode::new("main".to_string(), 3);
    assert!(parser.try_generate_call_graph(2));
    assert_eq!(parser.output_yaml(), "3: main()\n    4: init()\n    4: run()\n        5: step()\n");
}

#[test]
fn parser_output_path_is_kept() {
    let parser = Parser::new("f".to_string(), "yaml_output/p.yaml".to_string());
    assert_eq!(parser.yaml_file_path(), "yaml_output/p.yaml");
}

#[test]
fn function_node_new_is_a_leaf() {
    let node = FunctionNode::new("fnX".to_string(), 7);
    assert_eq!(node.name(), "fnX");
    assert_eq!(node.curr_depth(), 7);
    assert_eq!(node.num_children(), 0);
    let copy = node.duplicate();
    assert_eq!(copy.name(), "fnX");
    assert_eq!(copy.curr_depth(), 7);
}

#[test]
fn render_at_a_deeper_indentation_level() {
    let node = FunctionNode::new("fnA".to_string(), 0);
    let mut out = Vec::new();
    assert!(node.fits_indentation(2));
    callgraph::graph::write_node_yaml(&node, 2, &mut out);
    assert_eq!(out.iter().collect::<String>(), "        0: fnA()\n");
    assert!(!node.fits_indentation(usize::MAX));
}
