use template_expand::{
    generate_combinations, log_line, output_file_name, parse_each_blocks, replace_each_blocks,
    strip_nnn_bytes, trim_whitespace, Template,
};

fn b(s: &str) -> Vec<u8> {
    s.as_bytes().to_vec()
}

fn values(block: &template_expand::EachBlock) -> Vec<String> {
    block.values.iter().map(|v| String::from_utf8(v.clone()).unwrap()).collect()
}

fn outputs(text: &str) -> Vec<String> {
    let t = Template::parse(text.as_bytes());
    t.combinations()
        .iter()
        .map(|c| String::from_utf8(t.render(c)).unwrap())
        .collect()
}

#[test]
fn config_example_two_files_and_log() {
    let name = b("config_NNN.txt");
    let t = Template::parse(b"mode=EACH<fast, slow>");
    let combos = t.combinations();
    assert_eq!(combos.len(), 2);
    let mut files = Vec::new();
    let mut log = Vec::new();
    for (i, c) in combos.iter().enumerate() {
        let out = output_file_name(i, &name);
        files.push((String::from_utf8(out.clone()).unwrap(), String::from_utf8(t.render(c)).unwrap()));
        log.push(String::from_utf8(log_line(&name, &out, c)).unwrap());
    }
    assert_eq!(files[0], ("000_config_.txt".to_string(), "mode=fast".to_string()));
    assert_eq!(files[1], ("001_config_.txt".to_string(), "mode=slow".to_string()));
    assert_eq!(log, vec!["config_NNN.txt -> 000_config_.txt fast", "config_NNN.txt -> 001_config_.txt slow"]);
}

#[test]
fn two_markers_first_varies_slowest() {
    assert_eq!(outputs("EACH<a,b>/EACH<x,y>"), vec!["a/x", "a/y", "b/x", "b/y"]);
}

#[test]
fn no_markers_gives_one_identical_output() {
    let text = "plain text, no markers > here";
    let t = Template::parse(text.as_bytes());
    assert!(t.blocks.is_empty());
    let combos = t.combinations();
    assert_eq!(combos.len(), 1);
    assert!(combos[0].is_empty());
    assert_eq!(t.render(&combos[0]), b(text));
    assert_eq!(output_file_name(0, b"NNN.frag"), b("000_.frag"));
}

#[test]
fn empty_template_gives_one_empty_output() {
    assert_eq!(outputs(""), vec![""]);
}

#[test]
fn output_count_is_product_of_value_counts() {
    let t = Template::parse(b"EACH<1,2> EACH<a,b,c> EACH<only>");
    assert_eq!(t.combinations().len(), 6);
    let t = Template::parse(b"EACH<1,2,3,4> EACH<a,b,c>");
    assert_eq!(t.combinations().len(), 12);
}

#[test]
fn single_value_marker_is_replaced_everywhere() {
    let outs = outputs("x=EACH< v >; y=EACH<1,2>");
    assert_eq!(outs, vec!["x=v; y=1", "x=v; y=2"]);
}

#[test]
fn later_marker_lands_right_after_longer_and_shorter_values() {
    assert_eq!(
        outputs("[EACH<a-much-longer-value,>]-[EACH<p,q>]"),
        vec!["[a-much-longer-value]-[p]", "[a-much-longer-value]-[q]", "[]-[p]", "[]-[q]"]
    );
}

#[test]
fn running_twice_gives_the_same_outputs() {
    let text = "EACH<a,b>:EACH<c,d,e>";
    assert_eq!(outputs(text), outputs(text));
}

#[test]
fn scanner_reports_values_and_byte_ranges() {
    let blocks = parse_each_blocks("héllo EACH< a , b,c >!EACH<z>".as_bytes());
    assert_eq!(blocks.len(), 2);
    assert_eq!(values(&blocks[0]), vec!["a", "b", "c"]);
    assert_eq!((blocks[0].start, blocks[0].end), (7, 22));
    assert_eq!(values(&blocks[1]), vec!["z"]);
    assert_eq!((blocks[1].start, blocks[1].end), (23, 30));
}

#[test]
fn malformed_markers_are_plain_text() {
    assert!(parse_each_blocks(b"EACH<a,b").is_empty());
    assert!(parse_each_blocks(b"EACH<>").is_empty());
    assert!(parse_each_blocks(b"each<a>").is_empty());
    assert_eq!(outputs("EACH<>EACH<q>"), vec!["EACH<>q"]);
}

#[test]
fn marker_ends_at_first_close() {
    let blocks = parse_each_blocks(b"EACH<EACH<a>b>");
    assert_eq!(blocks.len(), 1);
    assert_eq!(values(&blocks[0]), vec!["EACH<a"]);
    assert_eq!((blocks[0].start, blocks[0].end), (0, 12));
}

#[test]
fn empty_pieces_are_empty_values() {
    let blocks = parse_each_blocks(b"EACH< ,a,>");
    assert_eq!(values(&blocks[0]), vec!["", "a", ""]);
    assert_eq!(outputs("<EACH< >>"), vec!["<>"]);
}

#[test]
fn trimming_removes_unicode_whitespace() {
    assert_eq!(trim_whitespace("\u{a0}\t x y\u{3000}\n".as_bytes()), b("x y"));
    assert_eq!(trim_whitespace("\u{2009}\u{85}".as_bytes()), b(""));
    assert_eq!(trim_whitespace("é\u{2028}".as_bytes()), b("é"));
    assert_eq!(trim_whitespace(b"  "), b(""));
}

#[test]
fn output_names_pad_index_and_drop_nnn() {
    assert_eq!(output_file_name(7, b"NNNN.frag"), b("007_N.frag"));
    assert_eq!(output_file_name(42, b"NNN_math.js"), b("042__math.js"));
    assert_eq!(output_file_name(1234, b"a.txt"), b("1234_a.txt"));
    assert_eq!(strip_nnn_bytes(b"xNNNyNNz"), b("xyNNz"));
}

#[test]
fn log_line_joins_values() {
    let combo = vec![b("a"), b("x"), b("")];
    assert_eq!(log_line(b"t_NNN.c", b"003_t_.c", &combo), b("t_NNN.c -> 003_t_.c a, x, "));
    assert_eq!(log_line(b"t", b"000_t", &[]), b("t -> 000_t "));
}

#[test]
fn free_functions_agree_with_template() {
    let text = b"A=EACH<1,2> B=EACH<x>";
    let blocks = parse_each_blocks(text);
    let combos = generate_combinations(&blocks);
    let rendered: Vec<Vec<u8>> = combos.iter().map(|c| replace_each_blocks(text, c, &blocks)).collect();
    assert_eq!(rendered, vec![b("A=1 B=x"), b("A=2 B=x")]);
}
