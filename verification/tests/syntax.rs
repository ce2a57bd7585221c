//! Fold spans from syntax trees. The nodes are those that the grammars of the languages give
//! for the sample documents, as byte ranges of the document.
use helix_core::fold::{tree_sitter_spans, FoldSpan, SyntaxNode};
use helix_core::text::Text;

/// A named node covering `part`, the first occurrence of it at or after byte `from`.
fn named(src: &str, from: usize, part: &str) -> SyntaxNode {
    let start = from + src[from..].find(part).expect("the part occurs in the document");
    SyntaxNode {
        start_byte: start,
        end_byte: start + part.len(),
        is_named: true,
    }
}

/// An anonymous node (a token such as a bracket or a keyword).
fn token(src: &str, from: usize, part: &str) -> SyntaxNode {
    SyntaxNode {
        is_named: false,
        ..named(src, from, part)
    }
}

fn range(start_byte: usize, end_byte: usize) -> SyntaxNode {
    SyntaxNode {
        start_byte,
        end_byte,
        is_named: true,
    }
}

fn spans_for(src: &str, nodes: &[SyntaxNode]) -> Vec<FoldSpan> {
    let text = Text::new(src.chars().collect());
    tree_sitter_spans(nodes, &text)
}

#[test]
fn rust_function() {
    let src = "fn main() {\n    let x = 1;\n    println!(\"{x}\");\n}\n";
    let close = src.rfind('}').unwrap() + 1;
    let open = src.find('{').unwrap();
    let nodes = [
        range(0, src.len()),
        range(0, close),
        token(src, 0, "fn"),
        named(src, 0, "main"),
        named(src, 0, "()"),
        range(open, close),
        token(src, 0, "{"),
        named(src, 0, "let x = 1;"),
        named(src, 0, "x"),
        named(src, 0, "1"),
        named(src, 0, "println!(\"{x}\");"),
        named(src, 0, "println!(\"{x}\")"),
        named(src, 0, "println"),
        named(src, 0, "(\"{x}\")"),
        named(src, 0, "\"{x}\""),
        token(src, open + 1, "}"),
    ];
    let spans = spans_for(src, &nodes);
    // the whole function body, from the opening brace's line to the closing brace's line
    assert!(spans.contains(&FoldSpan::new(0, 3).unwrap()), "{spans:?}");
    // a single-line node (the `let` statement) is not foldable
    assert!(!spans.iter().any(|s| s.first_line == 1), "{spans:?}");
}

#[test]
fn markdown_heading_and_list() {
    let src = "# Title\n\nintro\n\n- one\n  - nested\n- two\n\nafter\n";
    let list = src.find("- one").unwrap();
    let nodes = [
        range(0, src.len()),
        range(0, src.len()),
        named(src, 0, "# Title\n"),
        named(src, 0, "#"),
        named(src, 0, "Title"),
        named(src, 0, "intro\n"),
        range(list, src.find("after").unwrap()),
        named(src, 0, "- one\n  - nested\n"),
        named(src, 0, "one\n"),
        named(src, 0, "  - nested\n"),
        named(src, 0, "- nested\n"),
        named(src, 0, "- two\n\n"),
        named(src, 0, "after\n"),
    ];
    let spans = spans_for(src, &nodes);
    // the whole document is one section headed by the h1
    assert!(spans.contains(&FoldSpan::new(0, 8).unwrap()), "{spans:?}");
    // the outer list item containing the nested one: "fold under this bullet point"
    assert!(spans.contains(&FoldSpan::new(4, 5).unwrap()), "{spans:?}");
}

#[test]
fn markdown_code_fence_folds_using_its_own_language() {
    let src = "# Title\n\n```rust\nfn f() {\n    1\n}\n```\n";
    let fence = src.find("```rust").unwrap();
    let content = src.find("fn f()").unwrap();
    let content_end = src.rfind("```").unwrap();
    let close = src.rfind('}').unwrap() + 1;
    let nodes = [
        // the markdown layer
        range(0, src.len()),
        range(0, src.len()),
        named(src, 0, "# Title\n"),
        range(fence, src.len()),
        named(src, 0, "rust"),
        range(content, content_end),
        // the rust layer of the fenced block
        range(content, content_end),
        range(content, close),
        named(src, content, "f"),
        named(src, content, "()"),
        range(src.find('{').unwrap(), close),
        named(src, content, "1"),
    ];
    let spans = spans_for(src, &nodes);
    // `fn f() { .. }` inside the fence, at the fence's own line offsets
    assert!(spans.contains(&FoldSpan::new(3, 5).unwrap()), "{spans:?}");
}

#[test]
fn folding_works_without_a_hand_written_query() {
    let src = "func main() {\n\tif true {\n\t\tprintln(\"hi\")\n\t}\n}\n";
    let close = src.rfind('}').unwrap() + 1;
    let if_start = src.find("if").unwrap();
    let if_close = src.find("\t}").unwrap() + 2;
    let nodes = [
        range(0, src.len()),
        range(0, close),
        token(src, 0, "func"),
        named(src, 0, "main"),
        named(src, 0, "()"),
        range(src.find('{').unwrap(), close),
        range(if_start, if_close),
        named(src, 0, "true"),
        range(src[if_start..].find('{').unwrap() + if_start, if_close),
        named(src, 0, "println(\"hi\")"),
        named(src, 0, "println"),
        named(src, 0, "(\"hi\")"),
        named(src, 0, "\"hi\""),
    ];
    let spans = spans_for(src, &nodes);
    assert!(spans.contains(&FoldSpan::new(0, 4).unwrap()), "{spans:?}"); // the function
    assert!(spans.contains(&FoldSpan::new(1, 3).unwrap()), "{spans:?}"); // the if statement
}
