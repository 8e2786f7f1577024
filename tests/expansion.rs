use brace_expand::brace_expand;

#[test]
fn simple_expansion_in_middle_of_string_works() {
    let output = brace_expand("a{b,c}d");

    assert_eq!(output, vec!["abd", "acd"]);
}

#[test]
fn nested_expansion_works() {
    let output = brace_expand("{a,b}c{e,f{g,h}}");

    assert_eq!(output, vec!["ace", "acfg", "acfh", "bce", "bcfg", "bcfh"]);
}

#[test]
fn empty_terms_work() {
    let output = brace_expand("a{,b,,c,}d");

    assert_eq!(output, vec!["ad", "abd", "ad", "acd", "ad"]);
}

#[test]
fn escaping_commas_works() {
    let output = brace_expand("{a\\,,b\\,}c");

    assert_eq!(output, vec!["a,c", "b,c"]);
}

#[test]
fn escaping_braces_works() {
    let output = brace_expand("{\\{a,b\\},c}d");

    assert_eq!(output, vec!["{ad", "b}d", "cd"]);
}

#[test]
fn escaping_backslashes_works() {
    let output = brace_expand("{\\\\{a,b\\\\},c}d");

    assert_eq!(output, vec!["\\ad", "\\b\\d", "cd"]);
}

#[test]
fn trival_expansion_works() {
    let output = brace_expand("a");

    assert_eq!(output, vec!["a"]);
}

#[test]
fn trival_expansion_with_escaped_backslash_works() {
    let output = brace_expand("a\\\\");

    assert_eq!(output, vec!["a\\"]);
}

#[test]
fn documented_examples() {
    assert_eq!(
        brace_expand("this {is,is not} a pipe"),
        vec!["this is a pipe", "this is not a pipe"]
    );
    assert_eq!(
        brace_expand("{hello,goodbye} {world,my {friends,colleagues}}"),
        vec![
            "hello world",
            "hello my friends",
            "hello my colleagues",
            "goodbye world",
            "goodbye my friends",
            "goodbye my colleagues",
        ]
    );
    assert_eq!(
        brace_expand("this is {\\{braced\\},[bracketed\\, nicely]}"),
        vec!["this is {braced}", "this is [bracketed, nicely]"]
    );
}

#[test]
fn empty_input_gives_one_empty_string() {
    assert_eq!(brace_expand(""), vec![""]);
}

#[test]
fn plain_text_is_returned_unchanged() {
    assert_eq!(brace_expand("hello world"), vec!["hello world"]);
    assert_eq!(brace_expand("päivää, ei"), vec!["päivää ei"]);
}

#[test]
fn two_groups_give_every_pairing_first_slowest() {
    let output = brace_expand("{a,b}{x,y,z}");

    assert_eq!(output, vec!["ax", "ay", "az", "bx", "by", "bz"]);
}

#[test]
fn escapes_give_the_escaped_character() {
    assert_eq!(brace_expand("\\a\\{\\}\\,\\\\"), vec!["a{},\\"]);
}

#[test]
fn trailing_lone_backslash_is_dropped() {
    assert_eq!(brace_expand("ab\\"), vec!["ab"]);
}

#[test]
fn group_without_commas_has_one_alternative() {
    assert_eq!(brace_expand("x{abc}y"), vec!["xabcy"]);
    assert_eq!(brace_expand("x{}y"), vec!["xy"]);
}

#[test]
fn stray_structural_tokens_are_dropped() {
    assert_eq!(brace_expand("a,b"), vec!["ab"]);
    assert_eq!(brace_expand("{a,b"), vec!["ab"]);
    assert_eq!(brace_expand("}{a,b}"), vec!["ab"]);
    assert_eq!(brace_expand("a}b{c,d}"), vec!["abcd"]);
    assert_eq!(brace_expand("{{a,b}"), vec!["ab"]);
    assert_eq!(brace_expand("{a,b}}"), vec!["a", "b"]);
}

#[test]
fn unterminated_group_with_comma_is_finished_text() {
    assert_eq!(brace_expand("{a,{b}"), vec!["ab"]);
    assert_eq!(brace_expand("x{a,b{c,d}"), vec!["xabcd"]);
}

#[test]
fn deep_nesting() {
    assert_eq!(brace_expand("{a,{b,{c,d}}}"), vec!["a", "b", "c", "d"]);
}
