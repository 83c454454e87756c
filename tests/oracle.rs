use regex::ast::parser::Parser;
use regex::ast::Ast;
use regex::Regex;

/// Every position at which a match of `ast` that starts at `at` can end.
fn ends(ast: &Ast, s: &[char], at: usize) -> Vec<usize> {
    let mut out = match ast {
        Ast::Literal(c) => {
            if at < s.len() && s[at] == *c {
                vec![at + 1]
            } else {
                vec![]
            }
        }
        Ast::Concat(items) => {
            let mut here = vec![at];
            for item in items {
                let mut next = Vec::new();
                for &p in &here {
                    next.extend(ends(item, s, p));
                }
                next.sort();
                next.dedup();
                here = next;
            }
            here
        }
        Ast::Alternate(items) => items.iter().flat_map(|item| ends(item, s, at)).collect(),
        Ast::Repetition(rep) => {
            let mut reached = vec![at];
            let mut frontier = vec![at];
            let mut count = 0u32;
            let mut out = if rep.min == 0 { vec![at] } else { vec![] };
            while !frontier.is_empty() && rep.max.map_or(true, |m| count < m) {
                count += 1;
                let mut next = Vec::new();
                for &p in &frontier {
                    for e in ends(&rep.ast, s, p) {
                        if count >= rep.min {
                            out.push(e);
                        }
                        if !reached.contains(&e) {
                            reached.push(e);
                            next.push(e);
                        }
                    }
                }
                frontier = next;
            }
            out
        }
    };
    out.sort();
    out.dedup();
    out
}

fn backtrack_accepts(ast: &Ast, text: &str) -> bool {
    let s: Vec<char> = text.chars().collect();
    ends(ast, &s, 0).contains(&s.len())
}

fn words(alphabet: &[char], max_len: usize) -> Vec<String> {
    let mut all = vec![String::new()];
    let mut last = vec![String::new()];
    for _ in 0..max_len {
        let mut next = Vec::new();
        for w in &last {
            for &c in alphabet {
                let mut x = w.clone();
                x.push(c);
                next.push(x);
            }
        }
        all.extend(next.iter().cloned());
        last = next;
    }
    all
}

#[test]
fn is_match_agrees_with_a_backtracking_oracle() {
    let patterns = [
        "(a|b)*",
        "ab|cd",
        "a(b|c)*d",
        "a(b|c)?d",
        "a(b|c)+d",
        "(ab|a)*b",
        "((a|b)+)*c",
        "(a?b?)+",
        "a*b*a*",
        "(a|)b",
    ];
    let all = words(&['a', 'b', 'c', 'd'], 5);
    for pattern in patterns {
        let mut parser = Parser::new(pattern);
        let ast = match parser.parse() {
            Ok(ast) => ast,
            Err(_) => {
                assert!(Regex::new(pattern).is_err(), "{}", pattern);
                continue;
            }
        };
        let re = Regex::new(pattern).unwrap();
        for w in &all {
            assert_eq!(re.is_match(w), backtrack_accepts(&ast, w), "pattern {} on {:?}", pattern, w);
        }
    }
}
