//! Flat tokens produced by the tokenizer and mutated by the lexer engine,
//! together with their mathematical model.

use vstd::prelude::*;

verus! {

/// Mathematical model of a token: its text, its tags as character sequences,
/// and its source position.
#[verifier::ext_equal]
pub ghost struct TokenModel {
    pub content: Seq<char>,
    pub tags: Seq<Seq<char>>,
    pub line: nat,
    pub col: nat,
    pub file: Seq<char>,
}

/// A labeled span of source text. Produced one-per-character by `to_tokens`,
/// then mutated in place by the lexer engine: tags appended, runs merged into
/// one token, or tokens removed.
pub struct Token {
    pub content: String,
    pub tags: Vec<String>,
    pub line: usize,
    pub char: usize,
    pub file: String,
}

/// The model of a sequence of tag strings: each tag as its character sequence.
pub open spec fn tags_model(tags: Seq<String>) -> Seq<Seq<char>> {
    tags.map_values(|t: String| t@)
}

/// The model of one token.
pub open spec fn token_model(t: Token) -> TokenModel {
    TokenModel {
        content: t.content@,
        tags: tags_model(t.tags@),
        line: t.line as nat,
        col: t.char as nat,
        file: t.file@,
    }
}

/// The model of a sequence of tokens.
pub open spec fn tokens_model(s: Seq<Token>) -> Seq<TokenModel> {
    s.map_values(|t: Token| token_model(t))
}

impl Token {
    /// The text this token covers.
    pub fn content(&self) -> (r: &str)
        ensures
            r@ == self.content@,
    {
        self.content.as_str()
    }
}

/// Whether `c` has the Unicode `White_Space` property, the set that
/// `char::is_whitespace` recognizes.
pub open spec fn is_whitespace_char(c: char) -> bool {
    ||| c == ' '
    ||| c == '\u{0009}'
    ||| c == '\u{000A}'
    ||| c == '\u{000B}'
    ||| c == '\u{000C}'
    ||| c == '\u{000D}'
    ||| c == '\u{0085}'
    ||| c == '\u{00A0}'
    ||| c == '\u{1680}'
    ||| c == '\u{2000}'
    ||| c == '\u{2001}'
    ||| c == '\u{2002}'
    ||| c == '\u{2003}'
    ||| c == '\u{2004}'
    ||| c == '\u{2005}'
    ||| c == '\u{2006}'
    ||| c == '\u{2007}'
    ||| c == '\u{2008}'
    ||| c == '\u{2009}'
    ||| c == '\u{200A}'
    ||| c == '\u{2028}'
    ||| c == '\u{2029}'
    ||| c == '\u{202F}'
    ||| c == '\u{205F}'
    ||| c == '\u{3000}'
}

/// Decides the Unicode `White_Space` property.
pub fn is_whitespace(c: char) -> (r: bool)
    ensures
        r == is_whitespace_char(c),
{
    match c {
        ' ' | '\u{0009}' | '\u{000A}' | '\u{000B}' | '\u{000C}' | '\u{000D}' | '\u{0085}'
        | '\u{00A0}' | '\u{1680}' | '\u{2000}' | '\u{2001}' | '\u{2002}' | '\u{2003}'
        | '\u{2004}' | '\u{2005}' | '\u{2006}' | '\u{2007}' | '\u{2008}' | '\u{2009}'
        | '\u{200A}' | '\u{2028}' | '\u{2029}' | '\u{202F}' | '\u{205F}' | '\u{3000}' => true,
        _ => false,
    }
}

/// The source line of the character at position `i`: the number of newlines
/// strictly before it.
pub open spec fn line_of(text: Seq<char>, i: int) -> nat
    decreases i,
{
    if i <= 0 {
        0
    } else if text[i - 1] == '\u{000A}' {
        line_of(text, i - 1) + 1
    } else {
        line_of(text, i - 1)
    }
}

/// The source column of the character at position `i`: its distance from the
/// last newline before it.
pub open spec fn col_of(text: Seq<char>, i: int) -> nat
    decreases i,
{
    if i <= 0 {
        0
    } else if text[i - 1] == '\u{000A}' {
        0
    } else {
        col_of(text, i - 1) + 1
    }
}

/// The tag "ws", marking whitespace.
pub open spec fn ws_tag() -> Seq<char> {
    "ws"@
}

/// The model of the token for the character at position `i` of `text`: its
/// content is that single character, its tags are the character's own literal
/// plus "ws" when the character is whitespace.
pub open spec fn char_token_model(text: Seq<char>, file: Seq<char>, i: int) -> TokenModel {
    TokenModel {
        content: seq![text[i]],
        tags: if is_whitespace_char(text[i]) {
            seq![seq![text[i]], ws_tag()]
        } else {
            seq![seq![text[i]]]
        },
        line: line_of(text, i),
        col: col_of(text, i),
        file: file,
    }
}

/// The model of the trailing zero-length sentinel token: empty content,
/// tagged with a literal space and "ws", positioned just after the last
/// character.
pub open spec fn sentinel_model(text: Seq<char>, file: Seq<char>) -> TokenModel {
    TokenModel {
        content: Seq::empty(),
        tags: seq![" "@, ws_tag()],
        line: line_of(text, text.len() as int),
        col: col_of(text, text.len() as int),
        file: file,
    }
}

/// The token sequence `to_tokens` produces: one token per character of
/// `text`, then the sentinel.
pub open spec fn tokens_spec(text: Seq<char>, file: Seq<char>) -> Seq<TokenModel> {
    Seq::new(
        text.len() + 1,
        |i: int|
            if i < text.len() {
                char_token_model(text, file, i)
            } else {
                sentinel_model(text, file)
            },
    )
}

/// Turns `text` into its initial flat token sequence: one token per
/// character, pre-tagged with its literal character and, for whitespace, the
/// whitespace marker, followed by one zero-length sentinel token. The
/// sentinel guarantees that a routine peeking one token ahead of the last
/// character never indexes past the end.
pub fn to_tokens(text: &str, file_name: &str) -> (r: Vec<Token>)
    ensures
        tokens_model(r@) == tokens_spec(text@, file_name@),
{
    let n = text.unicode_len();
    let mut tokens: Vec<Token> = Vec::new();
    let mut line_index: usize = 0;
    let mut char_index: usize = 0;
    let mut i: usize = 0;
    while i < n
        invariant
            n == text@.len(),
            i <= n,
            tokens@.len() == i,
            forall|j: int|
                0 <= j < i ==> token_model(#[trigger] tokens@[j]) == char_token_model(
                    text@,
                    file_name@,
                    j,
                ),
            line_index == line_of(text@, i as int),
            char_index == col_of(text@, i as int),
            line_index <= i,
            char_index <= i,
        decreases n - i,
    {
        let c = text.get_char(i);
        let c_str = text.substring_char(i, i + 1);
        let mut tags: Vec<String> = Vec::new();
        tags.push(String::from_str(c_str));
        if is_whitespace(c) {
            tags.push(String::from_str("ws"));
        }
        let tok = Token {
            content: String::from_str(c_str),
            tags,
            line: line_index,
            char: char_index,
            file: String::from_str(file_name),
        };
        proof {
            assert(c_str@ =~= seq![text@[i as int]]);
            assert(tags_model(tok.tags@) =~= char_token_model(text@, file_name@, i as int).tags);
            assert(token_model(tok) == char_token_model(text@, file_name@, i as int));
        }
        tokens.push(tok);
        if c == '\n' {
            line_index = line_index + 1;
            char_index = 0;
        } else {
            char_index = char_index + 1;
        }
        i = i + 1;
    }
    let mut sentinel_tags: Vec<String> = Vec::new();
    sentinel_tags.push(String::from_str(" "));
    sentinel_tags.push(String::from_str("ws"));
    let sentinel = Token {
        content: String::new(),
        tags: sentinel_tags,
        line: line_index,
        char: char_index,
        file: String::from_str(file_name),
    };
    proof {
        assert(tags_model(sentinel.tags@) =~= sentinel_model(text@, file_name@).tags);
        assert(token_model(sentinel) == sentinel_model(text@, file_name@));
    }
    tokens.push(sentinel);
    proof {
        assert(tokens_model(tokens@) =~= tokens_spec(text@, file_name@));
    }
    tokens
}

/// Whether the tag sequence holds `tag`, compared by characters.
pub(crate) fn tags_contain(tags: &Vec<String>, tag: &String) -> (r: bool)
    ensures
        r == tags_model(tags@).contains(tag@),
{
    let n = tags.len();
    let mut i: usize = 0;
    while i < n
        invariant
            n == tags@.len(),
            i <= n,
            forall|j: int| 0 <= j < i ==> tags_model(tags@)[j] != tag@,
        decreases n - i,
    {
        if tags[i] == *tag {
            proof {
                assert(tags_model(tags@)[i as int] == tag@);
            }
            return true;
        }
        i = i + 1;
    }
    proof {
        assert(!tags_model(tags@).contains(tag@));
    }
    false
}

/// Clones a tag list; the clone holds the same strings.
pub(crate) fn clone_strings(v: &Vec<String>) -> (r: Vec<String>)
    ensures
        r@ == v@,
{
    let n = v.len();
    let mut r: Vec<String> = Vec::new();
    let mut i: usize = 0;
    while i < n
        invariant
            n == v@.len(),
            i <= n,
            r@ == v@.subrange(0, i as int),
        decreases n - i,
    {
        r.push(v[i].clone());
        proof {
            assert(r@ =~= v@.subrange(0, i + 1));
        }
        i = i + 1;
    }
    proof {
        assert(r@ =~= v@);
    }
    r
}

} // verus!
