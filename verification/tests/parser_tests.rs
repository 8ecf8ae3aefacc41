use haste_map::js_parser::parse;

#[test]
fn require() {
    let content = String::from("\n      require('a');\n      const a = () => { require('b') };\n    ");
    let result = parse(&content);
    assert_eq!(result, vec!["a", "b"]);
}

#[test]
fn import() {
    let content = String::from(
        "\n      import a from 'a';\n      import type B from 'b';\n      import {a, b, c} from 'c';\n    ",
    );
    let result = parse(&content);
    assert_eq!(result, vec!["a", "c"]);
}

#[test]
fn export() {
    let content = String::from(
        "\n      export {a, b} from 'a';\n      export * from 'b';\n      export type {c} from 'c';\n    ",
    );
    let result = parse(&content);
    assert_eq!(result, vec!["a", "b"]);
}

#[test]
fn dynamic_import() {
    let content = String::from("\n      import('a').then(() => {});\n    ");
    let result = parse(&content);
    assert_eq!(result, vec!["a"]);
}

#[test]
fn multiline_import() {
    let content = String::from(
        "\n      import {\n        foo,\n        bar,\n      } from \"a\";\n      import foo as bar, {\n        baz,\n        biz,\n      } from \"b\";\n    ",
    );
    let result = parse(&content);
    assert_eq!(result, vec!["a", "b"]);
}

#[test]
fn type_import() {
    let content = String::from(
        "\n      import type MyType from \"a\";\n      import type { MyOtherType } from \"b\";\n    ",
    );
    let result = parse(&content);
    let expected: Vec<&str> = vec![];
    assert_eq!(result, expected);
}

#[test]
fn jest_require() {
    let content = String::from(
        "\n      require.requireActual('a');\n      require.requireMock('b');\n    ",
    );
    let result = parse(&content);
    assert_eq!(result, vec!["a", "b"]);
}

#[test]
fn ignore_line_comments() {
    let content = String::from(
        "\n      // require.requireActual('a');\n      // require.requireMock('b');\n    ",
    );
    let result = parse(&content);
    let expected: Vec<&str> = vec![];
    assert_eq!(result, expected);
}

#[test]
fn ignore_block_comments() {
    let content = String::from(
        "\n      /*\n        require.requireActual('a');\n        require.requireMock('b');\n      */\n    ",
    );
    let result = parse(&content);
    let expected: Vec<&str> = vec![];
    assert_eq!(result, expected);
}

#[test]
fn dedupes_duplicate_imports() {
    let content = String::from(
        "\n        if(foo) {\n          require('a');\n        }\n        if(bar) {\n          require('a');\n        }\n        require('b');\n    ",
    );
    let result = parse(&content);
    assert_eq!(result, vec!["a", "b"]);
}

#[test]
fn require_inside_closure() {
    let content = String::from("require('a'); const f = () => { require('b') };");
    let result = parse(&content);
    assert_eq!(result, vec!["a", "b"]);
}

#[test]
fn block_comment_hides_require() {
    let content = String::from("// require('a');\n/* require('b'); */");
    let result = parse(&content);
    let expected: Vec<&str> = vec![];
    assert_eq!(result, expected);
}

#[test]
fn member_access_import_not_matched() {
    let content = String::from("foo.import('a'); bar.require('b'); require('c');");
    let result = parse(&content);
    assert_eq!(result, vec!["c"]);
}

#[test]
fn jest_gen_mock_from_module() {
    let content = String::from("jest.genMockFromModule('m'); jest.requireActual('n');");
    let result = parse(&content);
    assert_eq!(result, vec!["m", "n"]);
}

#[test]
fn backtick_quoted_require() {
    let content = String::from("require(`mod`);");
    let result = parse(&content);
    assert_eq!(result, vec!["mod"]);
}

#[test]
fn mismatched_quotes_not_matched() {
    let content = String::from("require('a\");");
    let result = parse(&content);
    let expected: Vec<&str> = vec![];
    assert_eq!(result, expected);
}

#[test]
fn side_effect_import() {
    let content = String::from("import 'polyfill';\nimport x from 'y';");
    let result = parse(&content);
    assert_eq!(result, vec!["polyfill", "y"]);
}

#[test]
fn output_is_sorted_unique() {
    let content = String::from("require('z'); require('a'); require('z'); import m from 'a';");
    let result = parse(&content);
    assert_eq!(result, vec!["a", "z"]);
}

#[test]
fn unclosed_block_comment_keeps_rest() {
    let content = String::from("/* unclosed\nrequire('a');");
    let result = parse(&content);
    assert_eq!(result, vec!["a"]);
}

#[test]
fn empty_input_gives_nothing() {
    let content = String::new();
    let result = parse(&content);
    let expected: Vec<&str> = vec![];
    assert_eq!(result, expected);
}
