//! The two annotations that the scanner reads on a declaration.
//!
//! An alias annotation reads `doc(alias = "key")`, where a comma may follow
//! the key. A documentation comment reads `doc = "text"`. An annotation is a
//! path and the tokens behind it. One that has another shape is of no concern
//! here: it is passed over, never refused.

use crate::source::Span;
use crate::text::str_eq;
use vstd::prelude::*;

verus! {

/// A token, as far as an annotation is read.
#[derive(Debug)]
pub enum Token {
    /// An identifier, as it is written.
    Ident(String),
    /// One character of punctuation.
    Punct(char),
    /// A string literal: what it holds, and where it stands in the source.
    Str { value: String, span: Span },
    /// Any other token, and any group inside a group.
    Other,
}

/// A token of an annotation, or a group of them.
#[derive(Debug)]
pub enum TokenTree {
    /// One token.
    Token(Token),
    /// The tokens between round brackets.
    Parenthesized(Vec<Token>),
    /// A group between other brackets.
    Group,
}

/// An annotation of a declaration.
#[derive(Debug)]
pub struct Attribute {
    /// The path of the annotation where it is one plain identifier.
    pub path: Option<String>,
    /// What follows the path.
    pub tokens: Vec<TokenTree>,
}

/// Whether `token` is the punctuation `c`.
pub open spec fn is_punct(token: Token, c: char) -> bool {
    token matches Token::Punct(p) && p == c
}

/// Whether `token` is the identifier `word`.
pub open spec fn is_ident(token: Token, word: Seq<char>) -> bool {
    token matches Token::Ident(w) && w@ == word
}

/// The alias that the tokens inside the brackets give: `alias = "key"`, with
/// or without a comma behind it.
pub open spec fn alias_inside(inner: Seq<Token>) -> Option<Seq<char>> {
    if (inner.len() == 3 || (inner.len() == 4 && is_punct(inner[3], ','))) && is_ident(
        inner[0],
        "alias"@,
    ) && is_punct(inner[1], '=') && inner[2] is Str {
        Some(inner[2]->value@)
    } else {
        None
    }
}

/// The alias that the tokens of an annotation give: one group in round
/// brackets that holds an alias, and nothing else.
pub open spec fn alias_of(tokens: Seq<TokenTree>) -> Option<Seq<char>> {
    if tokens.len() == 1 && tokens[0] is Parenthesized {
        alias_inside(tokens[0]->Parenthesized_0@)
    } else {
        None
    }
}

/// Where the comment stands that the tokens of an annotation give: `=` and
/// a string literal, and nothing else.
pub open spec fn comment_of(tokens: Seq<TokenTree>) -> Option<Span> {
    if tokens.len() == 2 && tokens[0] is Token && is_punct(tokens[0]->Token_0, '=')
        && tokens[1] is Token && tokens[1]->Token_0 is Str {
        Some(tokens[1]->Token_0->span)
    } else {
        None
    }
}

/// The alias of the first annotation from place `k` on that gives one.
pub open spec fn find_alias_from(attrs: Seq<Attribute>, k: int) -> Option<Seq<char>>
    decreases attrs.len() - k,
{
    if k < 0 || k >= attrs.len() {
        None
    } else if attrs[k].is_doc() && alias_of(attrs[k].tokens@) is Some {
        alias_of(attrs[k].tokens@)
    } else {
        find_alias_from(attrs, k + 1)
    }
}

/// The alias of a declaration with these annotations.
pub open spec fn find_alias(attrs: Seq<Attribute>) -> Option<Seq<char>> {
    find_alias_from(attrs, 0)
}

/// The comment of the first annotation from place `k` on that gives one.
pub open spec fn find_comment_from(attrs: Seq<Attribute>, k: int) -> Option<Span>
    decreases attrs.len() - k,
{
    if k < 0 || k >= attrs.len() {
        None
    } else if attrs[k].is_doc() && comment_of(attrs[k].tokens@) is Some {
        comment_of(attrs[k].tokens@)
    } else {
        find_comment_from(attrs, k + 1)
    }
}

/// The first documentation comment of a declaration with these annotations.
pub open spec fn find_comment(attrs: Seq<Attribute>) -> Option<Span> {
    find_comment_from(attrs, 0)
}

/// The comment of the last annotation before place `k` that gives one.
pub open spec fn last_comment_before(attrs: Seq<Attribute>, k: int) -> Option<Span>
    decreases k,
{
    if k <= 0 || k > attrs.len() {
        None
    } else if attrs[k - 1].is_doc() && comment_of(attrs[k - 1].tokens@) is Some {
        comment_of(attrs[k - 1].tokens@)
    } else {
        last_comment_before(attrs, k - 1)
    }
}

/// The last documentation comment of a declaration with these annotations.
pub open spec fn find_last_comment(attrs: Seq<Attribute>) -> Option<Span> {
    last_comment_before(attrs, attrs.len() as int)
}

/// The block of documentation comments of a declaration with these
/// annotations: it runs from where the first of them begins to where the last
/// of them ends.
pub open spec fn comment_block(attrs: Seq<Attribute>) -> Option<Span> {
    if find_comment(attrs) is Some && find_last_comment(attrs) is Some {
        Some(Span { start: find_comment(attrs)->0.start, end: find_last_comment(attrs)->0.end })
    } else {
        None
    }
}

proof fn lemma_comment_found_after(attrs: Seq<Attribute>, k: int, j: int)
    requires
        0 <= k <= j < attrs.len(),
        attrs[j].is_doc(),
        comment_of(attrs[j].tokens@) is Some,
    ensures
        find_comment_from(attrs, k) is Some,
    decreases j - k,
{
    if k < j && !(attrs[k].is_doc() && comment_of(attrs[k].tokens@) is Some) {
        lemma_comment_found_after(attrs, k + 1, j);
    }
}

proof fn lemma_comment_found_before(attrs: Seq<Attribute>, k: int, j: int)
    requires
        0 <= j < k <= attrs.len(),
        attrs[j].is_doc(),
        comment_of(attrs[j].tokens@) is Some,
    ensures
        last_comment_before(attrs, k) is Some,
    decreases k - j,
{
    if j < k - 1 && !(attrs[k - 1].is_doc() && comment_of(attrs[k - 1].tokens@) is Some) {
        lemma_comment_found_before(attrs, k - 1, j);
    }
}

proof fn lemma_first_comment_is_one(attrs: Seq<Attribute>, k: int)
    requires
        0 <= k,
        find_comment_from(attrs, k) is Some,
    ensures
        exists|j: int|
            k <= j < attrs.len() && (#[trigger] attrs[j]).is_doc() && comment_of(attrs[j].tokens@)
                is Some,
    decreases attrs.len() - k,
{
    if !(attrs[k].is_doc() && comment_of(attrs[k].tokens@) is Some) {
        lemma_first_comment_is_one(attrs, k + 1);
    }
}

proof fn lemma_last_comment_is_one(attrs: Seq<Attribute>, k: int)
    requires
        k <= attrs.len(),
        last_comment_before(attrs, k) is Some,
    ensures
        exists|j: int|
            0 <= j < k && (#[trigger] attrs[j]).is_doc() && comment_of(attrs[j].tokens@) is Some,
    decreases k,
{
    if !(attrs[k - 1].is_doc() && comment_of(attrs[k - 1].tokens@) is Some) {
        lemma_last_comment_is_one(attrs, k - 1);
    }
}

/// A declaration has a block of documentation comments exactly where it has
/// a documentation comment.
pub proof fn lemma_block_where_comment(attrs: Seq<Attribute>)
    ensures
        comment_block(attrs) is Some <==> find_comment(attrs) is Some,
        find_last_comment(attrs) is Some <==> find_comment(attrs) is Some,
{
    if find_comment(attrs) is Some {
        lemma_first_comment_is_one(attrs, 0);
        let j = choose|j: int|
            0 <= j < attrs.len() && (#[trigger] attrs[j]).is_doc() && comment_of(attrs[j].tokens@)
                is Some;
        lemma_comment_found_before(attrs, attrs.len() as int, j);
    }
    if find_last_comment(attrs) is Some {
        lemma_last_comment_is_one(attrs, attrs.len() as int);
        let j = choose|j: int|
            0 <= j < attrs.len() && (#[trigger] attrs[j]).is_doc() && comment_of(attrs[j].tokens@)
                is Some;
        lemma_comment_found_after(attrs, 0, j);
    }
}

impl Attribute {
    /// Whether the path of the annotation is `doc`.
    pub open spec fn is_doc(&self) -> bool {
        self.path matches Some(p) && p@ == "doc"@
    }

    /// Whether the path of the annotation is `doc`.
    pub fn has_doc_path(&self) -> (doc: bool)
        ensures
            doc == self.is_doc(),
    {
        match &self.path {
            Some(p) => str_eq(p.as_str(), "doc"),
            None => false,
        }
    }
}

/// The key of an alias annotation.
#[derive(Debug)]
pub struct DocAlias(pub String);

impl DocAlias {
    /// Reads the tokens of an annotation as an alias.
    pub fn parse(tokens: &Vec<TokenTree>) -> (alias: Option<DocAlias>)
        ensures
            alias is Some <==> alias_of(tokens@) is Some,
            alias matches Some(a) ==> alias_of(tokens@) == Some(a.0@),
    {
        if tokens.len() != 1 {
            return None;
        }
        match &tokens[0] {
            TokenTree::Parenthesized(inner) => {
                if inner.len() != 3 && inner.len() != 4 {
                    return None;
                }
                if inner.len() == 4 {
                    match &inner[3] {
                        Token::Punct(c) => {
                            if *c != ',' {
                                return None;
                            }
                        },
                        _ => {
                            return None;
                        },
                    }
                }
                match &inner[0] {
                    Token::Ident(word) => {
                        if !str_eq(word.as_str(), "alias") {
                            return None;
                        }
                    },
                    _ => {
                        return None;
                    },
                }
                match &inner[1] {
                    Token::Punct(c) => {
                        if *c != '=' {
                            return None;
                        }
                    },
                    _ => {
                        return None;
                    },
                }
                match &inner[2] {
                    Token::Str { value, span: _ } => Some(DocAlias(value.clone())),
                    _ => None,
                }
            },
            _ => None,
        }
    }

    /// The alias of a declaration: that of the first `doc` annotation that
    /// reads as one.
    pub fn find(attrs: &Vec<Attribute>) -> (alias: Option<String>)
        ensures
            alias is Some <==> find_alias(attrs@) is Some,
            alias matches Some(a) ==> find_alias(attrs@) == Some(a@),
    {
        let mut k: usize = 0;
        while k < attrs.len()
            invariant
                k <= attrs.len(),
                find_alias_from(attrs@, k as int) == find_alias(attrs@),
            decreases attrs.len() - k,
        {
            if attrs[k].has_doc_path() {
                match DocAlias::parse(&attrs[k].tokens) {
                    Some(found) => {
                        return Some(found.0);
                    },
                    None => {},
                }
            }
            k = k + 1;
        }
        None
    }
}

/// Where a documentation comment stands in the source.
#[derive(Clone, Copy, Debug, PartialEq, Eq, Structural)]
pub struct DocComment(pub Span);

impl DocComment {
    /// Reads the tokens of an annotation as a documentation comment.
    pub fn parse(tokens: &Vec<TokenTree>) -> (comment: Option<DocComment>)
        ensures
            comment is Some <==> comment_of(tokens@) is Some,
            comment matches Some(c) ==> comment_of(tokens@) == Some(c.0),
    {
        if tokens.len() != 2 {
            return None;
        }
        match &tokens[0] {
            TokenTree::Token(Token::Punct(c)) => {
                if *c != '=' {
                    return None;
                }
            },
            _ => {
                return None;
            },
        }
        match &tokens[1] {
            TokenTree::Token(Token::Str { value: _, span }) => Some(DocComment(*span)),
            _ => None,
        }
    }

    /// The last documentation comment of a declaration: that of the last
    /// `doc` annotation that reads as one.
    pub fn find_last(attrs: &Vec<Attribute>) -> (comment: Option<Span>)
        ensures
            comment == find_last_comment(attrs@),
    {
        let mut k: usize = attrs.len();
        while k > 0
            invariant
                k <= attrs.len(),
                last_comment_before(attrs@, k as int) == find_last_comment(attrs@),
            decreases k,
        {
            if attrs[k - 1].has_doc_path() {
                match DocComment::parse(&attrs[k - 1].tokens) {
                    Some(found) => {
                        return Some(found.0);
                    },
                    None => {},
                }
            }
            k = k - 1;
        }
        None
    }

    /// The block of documentation comments of a declaration: from where the
    /// first of them begins to where the last of them ends. There is a block
    /// exactly where there is a comment.
    pub fn block(attrs: &Vec<Attribute>) -> (block: Option<Span>)
        ensures
            block == comment_block(attrs@),
            block is Some <==> find_comment(attrs@) is Some,
    {
        proof {
            lemma_block_where_comment(attrs@);
        }
        match DocComment::find(attrs) {
            Some(first) => match DocComment::find_last(attrs) {
                Some(last) => Some(Span { start: first.start, end: last.end }),
                None => None,
            },
            None => None,
        }
    }

    /// The first documentation comment of a declaration: that of the first
    /// `doc` annotation that reads as one.
    pub fn find(attrs: &Vec<Attribute>) -> (comment: Option<Span>)
        ensures
            comment == find_comment(attrs@),
    {
        let mut k: usize = 0;
        while k < attrs.len()
            invariant
                k <= attrs.len(),
                find_comment_from(attrs@, k as int) == find_comment(attrs@),
            decreases attrs.len() - k,
        {
            if attrs[k].has_doc_path() {
                match DocComment::parse(&attrs[k].tokens) {
                    Some(found) => {
                        return Some(found.0);
                    },
                    None => {},
                }
            }
            k = k + 1;
        }
        None
    }
}

} // verus!
