use neoq::cypher::{generate, generate_with_conditions, CypherError, Delimiter, LineColumn, Token, TokenKind};

/// Splits source text into the token trees that the compiler hands to the
/// `cypher!` macro: identifiers, number and string literals, single
/// punctuation characters and delimited groups, each with the line (counted
/// from `first_line`) and column where it starts and ends.  Comments and
/// whitespace are skipped.  A group prints as its source text.
fn lex(src: &str, first_line: usize) -> Vec<Token> {
    let chars: Vec<char> = src.chars().collect();
    let mut pos = 0usize;
    let mut line = first_line;
    let mut column = 0usize;
    let (tokens, _) = lex_until(&chars, &mut pos, &mut line, &mut column, None);
    tokens
}

fn lex_until(
    chars: &[char],
    pos: &mut usize,
    line: &mut usize,
    column: &mut usize,
    close: Option<char>,
) -> (Vec<Token>, LineColumn) {
    let mut tokens = Vec::new();
    while *pos < chars.len() {
        let c = chars[*pos];
        if Some(c) == close {
            *pos += 1;
            *column += 1;
            return (tokens, LineColumn { line: *line, column: *column });
        }
        if c == '\n' {
            *pos += 1;
            *line += 1;
            *column = 0;
            continue;
        }
        if c.is_whitespace() {
            *pos += 1;
            *column += 1;
            continue;
        }
        if c == '/' && *pos + 1 < chars.len() && chars[*pos + 1] == '/' {
            while *pos < chars.len() && chars[*pos] != '\n' {
                *pos += 1;
                *column += 1;
            }
            continue;
        }
        let start = LineColumn { line: *line, column: *column };
        let begin = *pos;
        if c == '(' || c == '[' || c == '{' {
            let (delimiter, closing) = match c {
                '(' => (Delimiter::Parenthesis, ')'),
                '[' => (Delimiter::Bracket, ']'),
                _ => (Delimiter::Brace, '}'),
            };
            *pos += 1;
            *column += 1;
            let (inner, end) = lex_until(chars, pos, line, column, Some(closing));
            let text: String = chars[begin..*pos].iter().collect();
            tokens.push(Token { kind: TokenKind::Group(delimiter, inner), text, start, end });
            continue;
        }
        let kind = if c.is_alphabetic() || c == '_' {
            while *pos < chars.len() && (chars[*pos].is_alphanumeric() || chars[*pos] == '_') {
                *pos += 1;
            }
            TokenKind::Ident
        } else if c.is_ascii_digit() {
            while *pos < chars.len() && chars[*pos].is_ascii_digit() {
                *pos += 1;
            }
            TokenKind::Literal
        } else if c == '"' {
            *pos += 1;
            while chars[*pos] != '"' {
                *pos += 1;
            }
            *pos += 1;
            TokenKind::Literal
        } else {
            *pos += 1;
            TokenKind::Punct(c)
        };
        *column += *pos - begin;
        let text: String = chars[begin..*pos].iter().collect();
        tokens.push(Token { kind, text, start, end: LineColumn { line: *line, column: *column } });
    }
    (tokens, LineColumn { line: *line, column: *column })
}

fn render(src: &str, enabled: &[&str]) -> String {
    let template = generate(&lex(src, 1)).0.unwrap();
    let enabled: Vec<String> = enabled.iter().map(|s| s.to_string()).collect();
    template.render(&enabled)
}

#[test]
fn test_basic_query() {
    let query = render(
        "
        MATCH (user:User)
        RETURN user
    ",
        &[],
    );
    assert_eq!(query, "MATCH (user:User)\nRETURN user\n")
}

#[test]
fn test_conditional_query() {
    let source = "
        MATCH (user:User)
        if condition {
            WHERE user.admin = true
        }
        RETURN user
    ";
    let falsy_query = render(source, &[]);
    assert_eq!(falsy_query, "MATCH (user:User)\nRETURN user\n");

    let truthy_query = render(source, &["condition"]);
    assert_eq!(truthy_query, "MATCH (user:User)\nWHERE user.admin = true\nRETURN user\n");
}

#[test]
fn test_complex_query_example() {
    let query = render(
        r#"
        MATCH (p:Person)-[:HAS_INTEREST]->(interestNode) // Match a Person and their direct interest
        WHERE p.age >= 25 AND p.age <= 40 // Filter persons by age
        WITH p, interestNode // Pass through person and their interest
        MATCH (interestNode)-[:BOUGHT]->(product:Product) // Find products related to the interest
        WHERE product.category = "Electronics" // Filter products by category
        WITH p, COUNT(DISTINCT product) AS distinctProductsCount // Count distinct products for each person
        WHERE distinctProductsCount > 2 // Filter persons who are interested in more than 2 distinct products
        RETURN p.name AS PersonName, distinctProductsCount // Return the person's name and the count
        ORDER BY distinctProductsCount DESC // Order the results
        LIMIT 10 // Limit the results to the top 10
    "#,
        &[],
    );

    assert_eq!(query, "MATCH (p:Person)-[:HAS_INTEREST]->(interestNode)\nWHERE p.age >= 25 AND p.age <= 40\nWITH p, interestNode\nMATCH (interestNode)-[:BOUGHT]->(product:Product)\nWHERE product.category = \"Electronics\"\nWITH p, COUNT(DISTINCT product) AS distinctProductsCount\nWHERE distinctProductsCount > 2\nRETURN p.name AS PersonName, distinctProductsCount\nORDER BY distinctProductsCount DESC\nLIMIT 10\n");
}

#[test]
fn test_complex_return() {
    let mut tokens = lex(
        "
        MATCH (p:Person) // Match a Person and their direct interest
        RETURN p {
            .*,
            .name,
            interests: [(p)-[:HAS_INTEREST]-(interest:Interest) | interest { .* }],
            posts: [(p)-[:POSTED]-(post:Post) | post { .* }]
        }
    ",
        1,
    );
    // The compiler prints a group that spans several lines in its own layout.
    let last = tokens.len() - 1;
    tokens[last].text = "{\n    .*, .name, interests:\n    [(p)-[:HAS_INTEREST]-(interest:Interest) | interest { .* }], posts:\n    [(p)-[:POSTED]-(post:Post) | post { .* }]\n}".to_string();
    let query = generate(&tokens).0.unwrap().render(&vec![]);

    assert_eq!(query, "MATCH (p:Person)\nRETURN p {\n    .*, .name, interests:\n    [(p)-[:HAS_INTEREST]-(interest:Interest) | interest { .* }], posts:\n    [(p)-[:POSTED]-(post:Post) | post { .* }]\n}\n");
}

#[test]
fn empty_input_gives_empty_query() {
    assert_eq!(render("", &[]), "");
    assert_eq!(render("  // only a comment\n", &["x"]), "");
}

#[test]
fn spacing_follows_the_source() {
    // Touching tokens are joined, a gap on one line becomes one space, and a
    // later line becomes one line break without indentation.
    assert_eq!(render("a.b   c\n      d", &[]), "a.b c\nd\n");
}

#[test]
fn nested_conditions() {
    let source = "
        MATCH (n)
        if outer {
            WHERE n.a = 1
            if inner {
                AND n.b = 2
            }
        }
        RETURN n
    ";
    assert_eq!(render(source, &[]), "MATCH (n)\nRETURN n\n");
    assert_eq!(render(source, &["inner"]), "MATCH (n)\nRETURN n\n");
    assert_eq!(render(source, &["outer"]), "MATCH (n)\nWHERE n.a = 1\nRETURN n\n");
    assert_eq!(render(source, &["outer", "inner"]), "MATCH (n)\nWHERE n.a = 1\nAND n.b = 2\nRETURN n\n");
}

#[test]
fn condition_text_keeps_its_spacing() {
    let source = "MATCH (n)\nif flags.admin && !locked { WHERE n.admin = true }\nRETURN n";
    assert_eq!(render(source, &["flags.admin && !locked"]), "MATCH (n)\nWHERE n.admin = true\nRETURN n\n");
    assert_eq!(render(source, &["flags.admin&&!locked"]), "MATCH (n)\nRETURN n\n");
}

#[test]
fn if_without_block_is_rejected() {
    let err = generate(&lex("MATCH (n) if ready", 1)).0.unwrap_err();
    assert_eq!(err, CypherError::MissingBlock);
}

#[test]
fn condition_that_is_no_expression_is_rejected() {
    let err = generate(&lex("MATCH (n) if { RETURN n }", 1)).0.unwrap_err();
    assert_eq!(err, CypherError::ConditionNotExpression);
    let err = generate(&lex("MATCH (n) if a b { RETURN n }", 1)).0.unwrap_err();
    assert_eq!(err, CypherError::ConditionNotExpression);
}

#[test]
fn errors_inside_a_block_are_reported() {
    let err = generate(&lex("MATCH (n) if a { if b }", 1)).0.unwrap_err();
    assert_eq!(err, CypherError::MissingBlock);
}

#[test]
fn rendering_ends_with_a_newline() {
    let q = render("MATCH (n) if a { RETURN n }", &["a"]);
    assert_eq!(q, "MATCH (n)\nRETURN n\n");
    assert!(q.ends_with('\n'));
}

#[test]
fn conditions_decided_by_the_caller() {
    let tokens = lex("MATCH (n) if a b { WHERE n.x = 1 } RETURN n", 1);
    let accepted = vec!["a b".to_string()];
    let template = generate_with_conditions(&tokens, &accepted).unwrap();
    assert_eq!(template.render(&vec![]), "MATCH (n)\nRETURN n\n");
    assert_eq!(template.render(&accepted), "MATCH (n)\nWHERE n.x = 1\nRETURN n\n");
    let err = generate_with_conditions(&tokens, &vec!["a".to_string()]).unwrap_err();
    assert_eq!(err, CypherError::ConditionNotExpression);
}

#[test]
fn empty_condition_is_rejected() {
    let err = generate(&lex("MATCH (n) if { WHERE n.x }", 1)).0.unwrap_err();
    assert_eq!(err, CypherError::ConditionNotExpression);
}

#[test]
fn condition_from_a_macro_argument_stays_one_operand() {
    // `if !$c { .. }` with `$c` bound to `x || y`: the argument reaches the
    // macro as a group without delimiters.
    let at = |column: usize| LineColumn { line: 1, column };
    let inner = lex("x || y", 1);
    let tokens = vec![
        Token { kind: TokenKind::Ident, text: "MATCH".to_string(), start: at(0), end: at(5) },
        Token { kind: TokenKind::Ident, text: "if".to_string(), start: at(6), end: at(8) },
        Token { kind: TokenKind::Punct('!'), text: "!".to_string(), start: at(9), end: at(10) },
        Token { kind: TokenKind::Group(Delimiter::Invisible, inner), text: "x || y".to_string(), start: at(10), end: at(16) },
        Token {
            kind: TokenKind::Group(Delimiter::Brace, lex("RETURN 1", 1)),
            text: "{ RETURN 1 }".to_string(),
            start: at(17),
            end: at(29),
        },
    ];
    let template = generate(&tokens).0.unwrap();
    assert_eq!(template.render(&vec!["!(x || y)".to_string()]), "MATCH\nRETURN 1\n");
    assert_eq!(template.render(&vec!["!x || y".to_string()]), "MATCH\n");
}

#[test]
fn each_occurrence_of_a_condition_has_its_own_value() {
    let source = "
        MATCH (n)
        if ready() { WHERE n.a = 1 }
        if ready() { RETURN n }
        if outer { if inner { SET n.b = 2 } }
        if last { DELETE n }
    ";
    let template = generate(&lex(source, 1)).0.unwrap();
    // The occurrences in source order: ready(), ready(), outer, inner, last.
    assert_eq!(template.render_with_values(&vec![true, false, false, true, true]), "MATCH (n)\nWHERE n.a = 1\nDELETE n\n");
    assert_eq!(template.render_with_values(&vec![false, true, true, true]), "MATCH (n)\nRETURN n\nSET n.b = 2\n");
    assert_eq!(template.render_with_values(&vec![]), "MATCH (n)\n");
    assert_eq!(
        template.render_with_values(&vec![true, true, false, false, false]),
        template.render(&vec!["ready()".to_string()])
    );
}
